//! Strings as sequences of characters: cutting a text into pieces, and
//! numbers in decimal.

use vstd::prelude::*;
use vstd::string::StrSliceExecFns;

verus! {

/// `String::push` appends one character.
pub assume_specification[ String::push ](s: &mut String, ch: char)
    ensures
        final(s)@ == old(s)@.push(ch),
;

/// The characters of `s`, in order.
pub fn chars_of(s: &str) -> (v: Vec<char>)
    ensures
        v@ == s@,
{
    let mut v: Vec<char> = Vec::new();
    for c in it: s.chars()
        invariant
            v@ == it.seq().take(it.index() as int),
    {
        v.push(c);
    }
    v
}

/// Whether two runs of characters are the same.
pub fn same_chars(x: &Vec<char>, y: &Vec<char>) -> (same: bool)
    ensures
        same == (x@ == y@),
{
    let n: usize = x.len();
    if y.len() != n {
        return false;
    }
    let mut i: usize = 0;
    while i < n
        invariant
            i <= n,
            n == x@.len(),
            n == y@.len(),
            forall|k: int| 0 <= k < i ==> x@[k] == y@[k],
        decreases n - i,
    {
        if x[i] != y[i] {
            return false;
        }
        i += 1;
    }
    proof {
        assert(x@ =~= y@);
    }
    true
}

/// The pieces of `s` between the occurrences of `sep`, in order. There is
/// one piece more than there are separators, so the empty text has one
/// empty piece.
pub open spec fn split(s: Seq<char>, sep: char) -> Seq<Seq<char>>
    decreases s.len(),
{
    if s.len() == 0 {
        seq![Seq::<char>::empty()]
    } else {
        let before = split(s.drop_last(), sep);
        if s.last() == sep {
            before.push(Seq::<char>::empty())
        } else {
            before.drop_last().push(before.last().push(s.last()))
        }
    }
}

/// The pieces put together again with `sep` between them.
pub open spec fn join(pieces: Seq<Seq<char>>, sep: char) -> Seq<char>
    decreases pieces.len(),
{
    if pieces.len() == 0 {
        Seq::<char>::empty()
    } else if pieces.len() == 1 {
        pieces[0]
    } else {
        join(pieces.drop_last(), sep).push(sep) + pieces.last()
    }
}

/// `s` without one carriage return at its end.
pub open spec fn without_return(s: Seq<char>) -> Seq<char> {
    if s.len() > 0 && s.last() == '\r' {
        s.drop_last()
    } else {
        s
    }
}

/// The lines of a text. A line ends with a line feed, which may follow a
/// carriage return; neither belongs to the line. What follows the last
/// line feed is a line too, unless it is empty.
pub open spec fn lines(s: Seq<char>) -> Seq<Seq<char>> {
    let pieces = split(s, '\n');
    let ended = pieces.drop_last().map_values(|p: Seq<char>| without_return(p));
    if pieces.last().len() == 0 {
        ended
    } else {
        ended.push(pieces.last())
    }
}

pub proof fn lemma_split_nonempty(s: Seq<char>, sep: char)
    ensures
        split(s, sep).len() >= 1,
    decreases s.len(),
{
    if s.len() > 0 {
        lemma_split_nonempty(s.drop_last(), sep);
    }
}

/// A text without separators is its own single piece.
pub proof fn lemma_split_whole(s: Seq<char>, sep: char)
    requires
        !s.contains(sep),
    ensures
        split(s, sep) == seq![s],
    decreases s.len(),
{
    if s.len() > 0 {
        let init = s.drop_last();
        assert(!init.contains(sep)) by {
            if init.contains(sep) {
                let i = choose|i: int| 0 <= i < init.len() && init[i] == sep;
                assert(s[i] == sep);
            }
        }
        lemma_split_whole(init, sep);
        assert(s.last() != sep) by {
            if s.last() == sep {
                assert(s[s.len() - 1] == sep);
            }
        }
        assert(init.push(s.last()) =~= s);
        assert(seq![init].drop_last().push(seq![init].last().push(s.last())) =~= seq![s]);
    } else {
        assert(s =~= Seq::<char>::empty());
    }
}

/// Behind a separator, a text without separators is one more piece.
pub proof fn lemma_split_append(a: Seq<char>, b: Seq<char>, sep: char)
    requires
        !b.contains(sep),
    ensures
        split(a.push(sep) + b, sep) == split(a, sep).push(b),
    decreases b.len(),
{
    let s = a.push(sep) + b;
    lemma_split_nonempty(a, sep);
    if b.len() == 0 {
        assert(s.drop_last() =~= a);
        assert(b =~= Seq::<char>::empty());
    } else {
        let shorter = b.drop_last();
        assert(!shorter.contains(sep)) by {
            if shorter.contains(sep) {
                let i = choose|i: int| 0 <= i < shorter.len() && shorter[i] == sep;
                assert(b[i] == sep);
            }
        }
        lemma_split_append(a, shorter, sep);
        assert(s.drop_last() =~= a.push(sep) + shorter);
        assert(s.last() == b.last());
        assert(b.last() != sep) by {
            if b.last() == sep {
                assert(b[b.len() - 1] == sep);
            }
        }
        let before = split(a, sep).push(shorter);
        assert(before.drop_last() =~= split(a, sep));
        assert(shorter.push(b.last()) =~= b);
    }
}

/// Pieces without separators are what a split finds in their joining.
pub proof fn lemma_split_join(pieces: Seq<Seq<char>>, sep: char)
    requires
        pieces.len() >= 1,
        forall|i: int| 0 <= i < pieces.len() ==> !(#[trigger] pieces[i]).contains(sep),
    ensures
        split(join(pieces, sep), sep) == pieces,
    decreases pieces.len(),
{
    if pieces.len() == 1 {
        lemma_split_whole(pieces[0], sep);
        assert(seq![pieces[0]] =~= pieces);
    } else {
        let init = pieces.drop_last();
        lemma_split_join(init, sep);
        lemma_split_append(join(init, sep), pieces.last(), sep);
        assert(init.push(pieces.last()) =~= pieces);
    }
}

/// The places of the pieces of a text: for each piece, where it begins and
/// where it ends.
pub open spec fn cut(s: Seq<char>, places: Seq<(usize, usize)>) -> Seq<Seq<char>> {
    Seq::new(places.len(), |i: int| s.subrange(places[i].0 as int, places[i].1 as int))
}

pub open spec fn places_within(places: Seq<(usize, usize)>, len: nat) -> bool {
    forall|i: int| 0 <= i < places.len() ==> (#[trigger] places[i]).0 <= places[i].1 <= len
}

/// Where the pieces of `chars` between the occurrences of `sep` lie.
pub fn split_places(chars: &Vec<char>, sep: char) -> (places: Vec<(usize, usize)>)
    ensures
        places_within(places@, chars@.len()),
        cut(chars@, places@) == split(chars@, sep),
        places@.len() >= 1,
{
    let mut places: Vec<(usize, usize)> = Vec::new();
    let mut start: usize = 0;
    let mut at: usize = 0;
    let n: usize = chars.len();
    proof {
        assert(chars@.take(0) =~= Seq::<char>::empty());
        assert(cut(chars@, places@.push((start, at))) =~= split(chars@.take(0), sep));
    }
    while at < n
        invariant
            n == chars@.len(),
            start <= at <= n,
            places_within(places@, at as nat),
            cut(chars@, places@.push((start, at))) == split(chars@.take(at as int), sep),
        decreases n - at,
    {
        let ghost before = split(chars@.take(at as int), sep);
        let ghost old_places = places@;
        let ghost old_cut = cut(chars@, places@.push((start, at)));
        proof {
            assert(old_cut == before);
            assert forall|k: int| 0 <= k < old_places.len() implies before[k] == chars@.subrange(
                old_places[k].0 as int,
                old_places[k].1 as int,
            ) by {
                assert(old_cut[k] == before[k]);
            }
            assert(old_cut[old_places.len() as int] == before.last());
            assert(chars@.take(at + 1).drop_last() =~= chars@.take(at as int));
            assert(chars@.take(at + 1).last() == chars@[at as int]);
            assert(before.len() == old_places.len() + 1);
            assert(before.last() == chars@.subrange(start as int, at as int));
        }
        if chars[at] == sep {
            places.push((start, at));
            start = at + 1;
            proof {
                let now = cut(chars@, places@.push((start, (at + 1) as usize)));
                let then = before.push(Seq::<char>::empty());
                assert(now.len() == then.len());
                assert forall|k: int| 0 <= k < now.len() implies now[k] == then[k] by {
                    if k < old_places.len() {
                        assert(places@.push((start, (at + 1) as usize))[k] == old_places[k]);
                    } else if k == old_places.len() {
                        assert(then[k] == before.last());
                    } else {
                        assert(now[k] =~= Seq::<char>::empty());
                    }
                }
                assert(now =~= then);
            }
        } else {
            proof {
                assert(chars@.subrange(start as int, at + 1) =~= before.last().push(
                    chars@[at as int],
                ));
                assert(cut(chars@, places@.push((start, (at + 1) as usize)))
                    =~= before.drop_last().push(before.last().push(chars@[at as int])));
            }
        }
        at += 1;
    }
    places.push((start, at));
    proof {
        assert(chars@.take(n as int) =~= chars@);
    }
    places
}

/// The pieces of `text` between the occurrences of `sep`.
pub fn split_text(text: &str, sep: char) -> (pieces: Vec<String>)
    ensures
        pieces@.len() == split(text@, sep).len(),
        forall|i: int| 0 <= i < pieces@.len() ==> (#[trigger] pieces@[i])@ == split(text@, sep)[i],
{
    let chars = chars_of(text);
    let places = split_places(&chars, sep);
    let n: usize = places.len();
    let mut pieces: Vec<String> = Vec::new();
    let mut i: usize = 0;
    while i < n
        invariant
            i <= n,
            n == places@.len(),
            chars@ == text@,
            places_within(places@, chars@.len()),
            cut(chars@, places@) == split(text@, sep),
            pieces@.len() == i,
            forall|k: int| 0 <= k < i ==> (#[trigger] pieces@[k])@ == split(text@, sep)[k],
        decreases n - i,
    {
        let (from, to) = places[i];
        proof {
            assert(cut(chars@, places@)[i as int] == chars@.subrange(from as int, to as int));
        }
        pieces.push(text.substring_char(from, to).to_owned());
        i += 1;
    }
    pieces
}

/// Where the lines of `chars` lie.
pub fn line_places(chars: &Vec<char>) -> (places: Vec<(usize, usize)>)
    ensures
        places_within(places@, chars@.len()),
        cut(chars@, places@) == lines(chars@),
{
    let pieces = split_places(chars, '\n');
    let count: usize = pieces.len();
    let mut places: Vec<(usize, usize)> = Vec::new();
    let mut i: usize = 0;
    let ghost all = split(chars@, '\n');
    while i + 1 < count
        invariant
            count == pieces@.len(),
            count >= 1,
            i + 1 <= count,
            places_within(pieces@, chars@.len()),
            cut(chars@, pieces@) == all,
            places@.len() == i,
            places_within(places@, chars@.len()),
            cut(chars@, places@) == all.take(i as int).map_values(
                |p: Seq<char>| without_return(p),
            ),
        decreases count - i,
    {
        let (from, to) = pieces[i];
        let ghost before = places@;
        proof {
            assert(all[i as int] == chars@.subrange(from as int, to as int));
        }
        let place: (usize, usize) = if from < to && chars[to - 1] == '\r' {
            (from, (to - 1) as usize)
        } else {
            (from, to)
        };
        places.push(place);
        proof {
            let piece = chars@.subrange(from as int, to as int);
            assert(chars@.subrange(place.0 as int, place.1 as int) =~= without_return(piece));
            assert(cut(chars@, places@) =~= all.take(i + 1).map_values(
                |p: Seq<char>| without_return(p),
            )) by {
                assert forall|k: int| 0 <= k < places@.len() implies cut(chars@, places@)[k]
                    == all.take(i + 1).map_values(|p: Seq<char>| without_return(p))[k] by {
                    if k < i {
                        assert(cut(chars@, before)[k] == all.take(i as int).map_values(
                            |p: Seq<char>| without_return(p),
                        )[k]);
                    }
                }
            }
        }
        i += 1;
    }
    let (from, to) = pieces[count - 1];
    proof {
        assert(all.last() == chars@.subrange(from as int, to as int));
        assert(all.take(i as int) =~= all.drop_last());
    }
    if from < to {
        places.push((from, to));
        proof {
            assert(cut(chars@, places@) =~= lines(chars@));
        }
    }
    places
}

/// The character that stands for a digit.
pub open spec fn digit_char(d: int) -> char {
    if d == 0 {
        '0'
    } else if d == 1 {
        '1'
    } else if d == 2 {
        '2'
    } else if d == 3 {
        '3'
    } else if d == 4 {
        '4'
    } else if d == 5 {
        '5'
    } else if d == 6 {
        '6'
    } else if d == 7 {
        '7'
    } else if d == 8 {
        '8'
    } else {
        '9'
    }
}

/// The digit that a character stands for.
pub open spec fn digit_value(c: char) -> Option<int> {
    if c == '0' {
        Some(0)
    } else if c == '1' {
        Some(1)
    } else if c == '2' {
        Some(2)
    } else if c == '3' {
        Some(3)
    } else if c == '4' {
        Some(4)
    } else if c == '5' {
        Some(5)
    } else if c == '6' {
        Some(6)
    } else if c == '7' {
        Some(7)
    } else if c == '8' {
        Some(8)
    } else if c == '9' {
        Some(9)
    } else {
        None
    }
}

/// A number in decimal, without leading zeros.
pub open spec fn decimal(n: nat) -> Seq<char>
    decreases n,
{
    if n < 10 {
        seq![digit_char(n as int)]
    } else {
        decimal(n / 10).push(digit_char((n % 10) as int))
    }
}

/// Why a text was not taken for a number.
#[derive(Clone, Copy, Debug, PartialEq, Eq, Structural)]
pub enum NumberError {
    /// The text is empty.
    Empty,
    /// The text holds something other than digits behind an optional plus
    /// sign, or no digit at all.
    InvalidDigit,
    /// The number does not fit in 32 bits.
    TooLarge,
}

/// The number that a run of digits stands for, read from the left. The
/// first character that is no digit, or with which the number outgrows 32
/// bits, decides the error.
pub open spec fn digits_value(s: Seq<char>) -> Result<nat, NumberError>
    decreases s.len(),
{
    if s.len() == 0 {
        Ok(0)
    } else {
        match digits_value(s.drop_last()) {
            Err(e) => Err(e),
            Ok(v) => match digit_value(s.last()) {
                None => Err(NumberError::InvalidDigit),
                Some(d) => if v * 10 + d > u32::MAX {
                    Err(NumberError::TooLarge)
                } else {
                    Ok((v * 10 + d) as nat)
                },
            },
        }
    }
}

/// The number that a text stands for: digits, which a plus sign may
/// precede.
pub open spec fn number_value(s: Seq<char>) -> Result<nat, NumberError> {
    if s.len() == 0 {
        Err(NumberError::Empty)
    } else {
        let digits = if s[0] == '+' {
            s.drop_first()
        } else {
            s
        };
        if digits.len() == 0 {
            Err(NumberError::InvalidDigit)
        } else {
            digits_value(digits)
        }
    }
}

/// Whether the text holds neither a comma nor a line feed.
pub open spec fn plain(s: Seq<char>) -> bool {
    !s.contains(',') && !s.contains('\n')
}

/// A number written in decimal is read back as itself, and holds digits
/// only.
pub proof fn lemma_decimal_round_trip(n: nat)
    requires
        n <= u32::MAX,
    ensures
        digits_value(decimal(n)) == Ok::<nat, NumberError>(n),
        number_value(decimal(n)) == Ok::<nat, NumberError>(n),
        decimal(n).len() >= 1,
        forall|i: int| 0 <= i < decimal(n).len() ==> digit_value(#[trigger] decimal(n)[i]) is Some,
        plain(decimal(n)),
    decreases n,
{
    let text = decimal(n);
    if n < 10 {
        assert(text.drop_last() =~= Seq::<char>::empty());
        assert(digits_value(text.drop_last()) == Ok::<nat, NumberError>(0));
        assert(digit_value(text.last()) == Some(n as int));
    } else {
        lemma_decimal_round_trip(n / 10);
        assert(text.drop_last() =~= decimal(n / 10));
        assert(digit_value(text.last()) == Some((n % 10) as int));
        assert forall|i: int| 0 <= i < text.len() implies digit_value(#[trigger] text[i])
            is Some by {
            if i < text.len() - 1 {
                assert(text[i] == decimal(n / 10)[i]);
            }
        }
    }
    assert(digit_value(text[0]) is Some);
    assert(!text.contains(',')) by {
        if text.contains(',') {
            let i = choose|i: int| 0 <= i < text.len() && text[i] == ',';
            assert(digit_value(text[i]) is Some);
        }
    }
    assert(!text.contains('\n')) by {
        if text.contains('\n') {
            let i = choose|i: int| 0 <= i < text.len() && text[i] == '\n';
            assert(digit_value(text[i]) is Some);
        }
    }
}

/// The digit that `c` stands for.
pub fn digit_of(c: char) -> (d: Option<u32>)
    ensures
        match d {
            Some(v) => digit_value(c) == Some(v as int),
            None => digit_value(c) is None,
        },
{
    match c {
        '0' => Some(0),
        '1' => Some(1),
        '2' => Some(2),
        '3' => Some(3),
        '4' => Some(4),
        '5' => Some(5),
        '6' => Some(6),
        '7' => Some(7),
        '8' => Some(8),
        '9' => Some(9),
        _ => None,
    }
}

/// The character for the digit `d`.
pub fn char_of_digit(d: u32) -> (c: char)
    requires
        d < 10,
    ensures
        c == digit_char(d as int),
{
    match d {
        0 => '0',
        1 => '1',
        2 => '2',
        3 => '3',
        4 => '4',
        5 => '5',
        6 => '6',
        7 => '7',
        8 => '8',
        _ => '9',
    }
}

/// Reads a number of 32 bits from decimal digits, which a plus sign may
/// precede.
pub fn parse_u32(s: &str) -> (read: Result<u32, NumberError>)
    ensures
        match read {
            Ok(n) => number_value(s@) == Ok::<nat, NumberError>(n as nat),
            Err(e) => number_value(s@) == Err::<nat, NumberError>(e),
        },
{
    let chars = chars_of(s);
    let n: usize = chars.len();
    if n == 0 {
        return Err(NumberError::Empty);
    }
    let first: usize = if chars[0] == '+' { 1 } else { 0 };
    if first == n {
        proof {
            assert(chars@.drop_first().len() == 0);
        }
        return Err(NumberError::InvalidDigit);
    }
    let ghost digits = chars@.skip(first as int);
    proof {
        assert(chars@.skip(0) =~= chars@);
        assert(chars@.skip(1) =~= chars@.drop_first());
        assert(digits.take(0) =~= Seq::<char>::empty());
    }
    let mut value: u32 = 0;
    let mut i: usize = first;
    while i < n
        invariant
            first <= i <= n,
            n == chars@.len(),
            digits == chars@.skip(first as int),
            number_value(s@) == digits_value(digits),
            digits_value(digits.take(i - first)) == Ok::<nat, NumberError>(value as nat),
        decreases n - i,
    {
        proof {
            assert(digits.take(i + 1 - first).drop_last() =~= digits.take(i - first));
            assert(digits.take(i + 1 - first).last() == chars@[i as int]);
            lemma_digits_stay_wrong(digits, i + 1 - first);
        }
        let d: u32 = match digit_of(chars[i]) {
            Some(d) => d,
            None => {
                return Err(NumberError::InvalidDigit);
            },
        };
        if value > (u32::MAX - d) / 10 {
            return Err(NumberError::TooLarge);
        }
        value = value * 10 + d;
        i += 1;
    }
    proof {
        assert(digits.take(n - first) =~= digits);
    }
    Ok(value)
}

/// Once a run of digits has gone wrong, what follows does not mend it.
pub proof fn lemma_digits_stay_wrong(s: Seq<char>, k: int)
    requires
        0 <= k <= s.len(),
    ensures
        digits_value(s.take(k)) matches Err(e) ==> digits_value(s) == Err::<nat, NumberError>(e),
    decreases s.len() - k,
{
    if k < s.len() {
        lemma_digits_stay_wrong(s, k + 1);
        assert(s.take(k + 1).drop_last() =~= s.take(k));
    } else {
        assert(s.take(k) =~= s);
    }
}

/// Appends `n` in decimal to `out`.
pub fn push_decimal(out: &mut String, n: u32)
    ensures
        final(out)@ == old(out)@ + decimal(n as nat),
    decreases n,
{
    if n >= 10 {
        push_decimal(out, n / 10);
    }
    out.push(char_of_digit(n % 10));
}

} // verus!
