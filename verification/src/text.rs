//! Texts as sequences of characters: finding, splitting, trimming, and
//! decimal numbers.

use vstd::prelude::*;
use vstd::slice::slice_subrange;

verus! {

/// `String::push` puts one character at the end of the text.
pub assume_specification[ String::push ](s: &mut String, c: char)
    ensures
        final(s)@ == old(s)@.push(c),
;

/// Whether a text holds ASCII characters only.
pub open spec fn all_ascii(s: Seq<char>) -> bool {
    forall|i: int| 0 <= i < s.len() ==> #[trigger] s[i] <= '\x7f'
}

/// A text with the letters `A` to `Z` in lower case.
pub open spec fn ascii_lowercase(s: Seq<char>) -> Seq<char> {
    s.map_values(|c: char| if 'A' <= c && c <= 'Z' { ((c as int) + 32) as char } else { c })
}

/// What `str::to_lowercase` makes of a text with other characters than ASCII.
pub uninterp spec fn unicode_lowercase(s: Seq<char>) -> Seq<char>;

/// `str::to_lowercase` maps a text to its lower case equivalent, by the
/// Unicode tables alone: of an ASCII text, the letters `A` to `Z` become `a`
/// to `z` and the rest stays. Which text comes of another one stays unsaid.
pub assume_specification[ str::to_lowercase ](s: &str) -> (r: String)
    ensures
        all_ascii(s@) ==> r@ == ascii_lowercase(s@),
        !all_ascii(s@) ==> r@ == unicode_lowercase(s@),
;

/// A text in lower case.
pub open spec fn lowercase(s: Seq<char>) -> Seq<char> {
    if all_ascii(s) {
        ascii_lowercase(s)
    } else {
        unicode_lowercase(s)
    }
}

/// A blank.
pub open spec fn is_blank(c: char) -> bool {
    c == ' ' || c == '\t'
}

/// A decimal digit.
pub open spec fn is_digit(c: char) -> bool {
    '0' <= c && c <= '9'
}

/// How many characters at the front of `s` satisfy `p` before one does not.
pub open spec fn span(s: Seq<char>, p: spec_fn(char) -> bool) -> int
    decreases s.len(),
{
    if s.len() == 0 || !p(s[0]) {
        0
    } else {
        1 + span(s.skip(1), p)
    }
}

/// Being another character than `c`.
pub open spec fn other_than(c: char) -> spec_fn(char) -> bool {
    |x: char| x != c
}

/// Where `c` first stands in `s`, or the length of `s`.
pub open spec fn find(s: Seq<char>, c: char) -> int {
    span(s, other_than(c))
}

/// The pieces of `s` between the occurrences of `c`.
pub open spec fn split(s: Seq<char>, c: char) -> Seq<Seq<char>>
    decreases s.len(),
{
    let k = find(s, c);
    if 0 <= k < s.len() {
        seq![s.take(k)] + split(s.skip(k + 1), c)
    } else {
        seq![s]
    }
}

/// `s` without the blanks in front.
pub open spec fn trim_start(s: Seq<char>) -> Seq<char> {
    s.skip(span(s, |c: char| is_blank(c)))
}

/// `s` without the blanks at its end.
pub open spec fn trim_end(s: Seq<char>) -> Seq<char>
    decreases s.len(),
{
    if s.len() > 0 && is_blank(s.last()) {
        trim_end(s.drop_last())
    } else {
        s
    }
}

/// `s` without the blanks at either end.
pub open spec fn trim(s: Seq<char>) -> Seq<char> {
    trim_end(trim_start(s))
}

/// Whether `s` begins with `prefix`.
pub open spec fn begins(s: Seq<char>, prefix: Seq<char>) -> bool {
    prefix.len() <= s.len() && s.take(prefix.len() as int) == prefix
}

/// The number that decimal digits stand for.
pub open spec fn decimal(s: Seq<char>) -> nat
    decreases s.len(),
{
    if s.len() == 0 {
        0
    } else {
        decimal(s.drop_last()) * 10 + (s.last() as nat - '0' as nat) as nat
    }
}

/// The number written in `s`, if `s` is made of decimal digits alone and the
/// number fits in 32 bits.
pub open spec fn number(s: Seq<char>) -> Option<u32> {
    if s.len() > 0 && (forall|i: int| 0 <= i < s.len() ==> is_digit(s[i])) && decimal(s)
        <= u32::MAX {
        Some(decimal(s) as u32)
    } else {
        None
    }
}

/// The digit for a number below ten.
pub open spec fn digit(n: nat) -> char {
    ('0' as nat + n) as char
}

/// A number in decimal, with no leading zero.
pub open spec fn numeral(n: nat) -> Seq<char>
    decreases n,
{
    if n < 10 {
        seq![digit(n)]
    } else {
        numeral(n / 10).push(digit(n % 10))
    }
}

/// The characters at the front satisfy `p`.
pub proof fn lemma_span_holds(s: Seq<char>, p: spec_fn(char) -> bool)
    ensures
        0 <= span(s, p) <= s.len(),
        forall|i: int| 0 <= i < span(s, p) ==> p(#[trigger] s[i]),
    decreases s.len(),
{
    if s.len() > 0 && p(s[0]) {
        let rest = s.skip(1);
        lemma_span_holds(rest, p);
        assert forall|i: int| 0 <= i < span(s, p) implies p(#[trigger] s[i]) by {
            assert(i > 0 ==> rest[i - 1] == s[i]);
        }
    }
}

/// `span` is the one position up to which `p` holds and at which it stops.
pub proof fn lemma_span(s: Seq<char>, p: spec_fn(char) -> bool, k: int)
    requires
        0 <= k <= s.len(),
        forall|i: int| 0 <= i < k ==> p(#[trigger] s[i]),
        k < s.len() ==> !p(s[k]),
    ensures
        span(s, p) == k,
    decreases k,
{
    if k > 0 {
        assert(p(s[0]));
        assert forall|i: int| 0 <= i < k - 1 implies p(#[trigger] s.skip(1)[i]) by {
            assert(s.skip(1)[i] == s[i + 1]);
        }
        lemma_span(s.skip(1), p, k - 1);
    }
}

/// `span` lies within the text, `p` holds before it and not at it.
pub proof fn lemma_span_is(s: Seq<char>, p: spec_fn(char) -> bool)
    ensures
        0 <= span(s, p) <= s.len(),
        forall|i: int| 0 <= i < span(s, p) ==> p(#[trigger] s[i]),
        span(s, p) < s.len() ==> !p(s[span(s, p)]),
    decreases s.len(),
{
    if s.len() > 0 && p(s[0]) {
        lemma_span_is(s.skip(1), p);
        assert forall|i: int| 0 <= i < span(s, p) implies p(#[trigger] s[i]) by {
            if i > 0 {
                assert(s[i] == s.skip(1)[i - 1]);
            }
        }
        if span(s, p) < s.len() {
            assert(s[span(s, p)] == s.skip(1)[span(s.skip(1), p)]);
        }
    }
}

/// Splitting a text whose first piece is known.
pub proof fn lemma_split_at(a: Seq<char>, c: char, b: Seq<char>)
    requires
        forall|i: int| 0 <= i < a.len() ==> a[i] != c,
    ensures
        split(a + seq![c] + b, c) == seq![a] + split(b, c),
{
    let s = a + seq![c] + b;
    lemma_span(s, other_than(c), a.len() as int);
    assert(s.take(a.len() as int) =~= a);
    assert(s.skip((a.len() + 1) as int) =~= b);
}

/// Splitting a text in which the separator does not occur.
pub proof fn lemma_split_none(a: Seq<char>, c: char)
    requires
        forall|i: int| 0 <= i < a.len() ==> a[i] != c,
    ensures
        split(a, c) == seq![a],
{
    lemma_span(a, other_than(c), a.len() as int);
}

/// A numeral is not empty and is made of digits.
pub proof fn lemma_numeral_digits(n: nat)
    ensures
        numeral(n).len() > 0,
        forall|i: int| 0 <= i < numeral(n).len() ==> is_digit(#[trigger] numeral(n)[i]),
    decreases n,
{
    if n >= 10 {
        lemma_numeral_digits(n / 10);
    }
}

/// A numeral stands for the number it was made from.
pub proof fn lemma_numeral_decimal(n: nat)
    ensures
        decimal(numeral(n)) == n,
    decreases n,
{
    if n < 10 {
        assert(numeral(n).drop_last() =~= Seq::<char>::empty());
        assert(decimal(numeral(n).drop_last()) == 0);
    } else {
        lemma_numeral_decimal(n / 10);
        assert(numeral(n).drop_last() =~= numeral(n / 10));
    }
}

/// What is written as a numeral is read as the same number.
pub proof fn lemma_number_of_numeral(n: u32)
    ensures
        number(numeral(n as nat)) == Some(n),
{
    lemma_numeral_digits(n as nat);
    lemma_numeral_decimal(n as nat);
}

/// The characters of a text, in order.
pub fn chars_of(s: &str) -> (out: Vec<char>)
    ensures
        out@ == s@,
{
    let mut out: Vec<char> = Vec::new();
    for c in it: s.chars()
        invariant
            out@ == s@.take(it.index() as int),
            it.seq() == s@,
    {
        proof {
            assert(s@.take(it.index() + 1) =~= s@.take(it.index() as int).push(c));
        }
        out.push(c);
    }
    proof {
        assert(s@.take(s@.len() as int) =~= s@);
    }
    out
}

/// The text made of the given characters.
pub fn text_of(s: &[char]) -> (out: String)
    ensures
        out@ == s@,
{
    let mut out = String::new();
    let mut i: usize = 0;
    while i < s.len()
        invariant
            i <= s@.len(),
            out@ == s@.take(i as int),
        decreases s@.len() - i,
    {
        out.push(s[i]);
        i += 1;
        proof {
            assert(s@.take(i as int) =~= s@.take(i - 1).push(s@[i - 1]));
        }
    }
    proof {
        assert(s@.take(s@.len() as int) =~= s@);
    }
    out
}

/// Whether `c` is a blank.
pub fn blank(c: char) -> (b: bool)
    ensures
        b == is_blank(c),
{
    c == ' ' || c == '\t'
}

/// Where `c` first stands in `s`, or the length of `s`.
pub fn find_char(s: &[char], c: char) -> (k: usize)
    ensures
        k == find(s@, c),
        k <= s@.len(),
{
    let mut k: usize = 0;
    while k < s.len() && s[k] != c
        invariant
            k <= s@.len(),
            forall|i: int| 0 <= i < k ==> s@[i] != c,
        decreases s@.len() - k,
    {
        k += 1;
    }
    proof {
        lemma_span(s@, other_than(c), k as int);
    }
    k
}

/// The pieces of `s` between the occurrences of `c`.
pub fn split_chars<'a>(s: &'a [char], c: char) -> (out: Vec<&'a [char]>)
    ensures
        out@.len() == split(s@, c).len(),
        forall|i: int| 0 <= i < out@.len() ==> (#[trigger] out@[i])@ == split(s@, c)[i],
{
    let mut out: Vec<&'a [char]> = Vec::new();
    let mut rest: &'a [char] = s;
    let ghost mut pieces: Seq<Seq<char>> = seq![];
    loop
        invariant
            out@.len() == pieces.len(),
            forall|i: int| 0 <= i < out@.len() ==> (#[trigger] out@[i])@ == pieces[i],
            split(s@, c) == pieces + split(rest@, c),
        decreases rest@.len(),
    {
        let k = find_char(rest, c);
        if k < rest.len() {
            let ghost whole = rest@;
            let piece = slice_subrange(rest, 0, k);
            let len = rest.len();
            rest = slice_subrange(rest, k + 1, len);
            out.push(piece);
            proof {
                assert(whole.take(k as int) =~= piece@);
                assert(whole.skip(k + 1) =~= rest@);
                assert((pieces + seq![piece@]) + split(rest@, c) =~= pieces + (seq![piece@] + split(
                    rest@,
                    c,
                )));
                pieces = pieces + seq![piece@];
            }
        } else {
            out.push(rest);
            proof {
                assert(split(s@, c) =~= pieces.push(rest@));
            }
            return out;
        }
    }
}

/// `s` without the blanks in front.
pub fn trim_start_chars<'a>(s: &'a [char]) -> (out: &'a [char])
    ensures
        out@ == trim_start(s@),
        out@.len() <= s@.len(),
{
    let mut k: usize = 0;
    while k < s.len() && blank(s[k])
        invariant
            k <= s@.len(),
            forall|i: int| 0 <= i < k ==> is_blank(#[trigger] s@[i]),
        decreases s@.len() - k,
    {
        k += 1;
    }
    proof {
        lemma_span(s@, |c: char| is_blank(c), k as int);
    }
    let out = slice_subrange(s, k, s.len());
    proof {
        assert(out@ =~= s@.skip(k as int));
    }
    out
}

/// `s` without the blanks at either end.
pub fn trim_chars<'a>(s: &'a [char]) -> (out: &'a [char])
    ensures
        out@ == trim(s@),
{
    let s = trim_start_chars(s);
    let mut k: usize = s.len();
    proof {
        assert(s@.take(k as int) =~= s@);
    }
    while k > 0 && blank(s[k - 1])
        invariant
            k <= s@.len(),
            trim_end(s@) == trim_end(s@.take(k as int)),
        decreases k,
    {
        k -= 1;
        proof {
            assert(s@.take(k + 1).drop_last() =~= s@.take(k as int));
        }
    }
    let out = slice_subrange(s, 0, k);
    proof {
        assert(out@ =~= s@.take(k as int));
    }
    out
}

/// Whether `s` begins with `prefix`.
pub fn begins_with(s: &[char], prefix: &str) -> (b: bool)
    ensures
        b == begins(s@, prefix@),
{
    let p = chars_of(prefix);
    if p.len() > s.len() {
        return false;
    }
    let mut i: usize = 0;
    while i < p.len()
        invariant
            i <= p@.len() <= s@.len(),
            p@ == prefix@,
            forall|j: int| 0 <= j < i ==> s@[j] == p@[j],
        decreases p@.len() - i,
    {
        if s[i] != p[i] {
            proof {
                assert(s@.take(p@.len() as int)[i as int] != p@[i as int]);
            }
            return false;
        }
        i += 1;
    }
    proof {
        assert(s@.take(p@.len() as int) =~= p@);
    }
    true
}

/// Whether `s` is the text `t`.
pub fn is_text(s: &[char], t: &str) -> (b: bool)
    ensures
        b == (s@ == t@),
{
    let len = chars_of(t).len();
    if s.len() != len {
        return false;
    }
    proof {
        assert(s@.take(len as int) =~= s@);
    }
    begins_with(s, t)
}

/// The number written in `s`, if `s` is made of decimal digits alone and the
/// number fits in 32 bits.
pub fn read_number(s: &[char]) -> (n: Option<u32>)
    ensures
        n == number(s@),
{
    if s.len() == 0 {
        return None;
    }
    let mut value: u32 = 0;
    let mut fits = true;
    let mut i: usize = 0;
    while i < s.len()
        invariant
            i <= s@.len(),
            forall|j: int| 0 <= j < i ==> is_digit(#[trigger] s@[j]),
            fits ==> value == decimal(s@.take(i as int)),
            !fits ==> decimal(s@.take(i as int)) > u32::MAX,
        decreases s@.len() - i,
    {
        let c = s[i];
        if !('0' <= c && c <= '9') {
            return None;
        }
        let d: u32 = c as u32 - '0' as u32;
        proof {
            assert(s@.take(i + 1).drop_last() =~= s@.take(i as int));
            assert(s@.take(i + 1).last() == c);
        }
        if fits && value <= (u32::MAX - d) / 10 {
            value = value * 10 + d;
        } else {
            fits = false;
        }
        i += 1;
    }
    proof {
        assert(s@.take(s@.len() as int) =~= s@);
    }
    if fits {
        Some(value)
    } else {
        None
    }
}

/// Puts `n`, in decimal, at the end of `out`.
pub fn push_number(out: &mut String, n: u32)
    ensures
        final(out)@ == old(out)@ + numeral(n as nat),
    decreases n,
{
    if n >= 10 {
        push_number(out, n / 10);
    }
    let c = ('0' as u8 + (n % 10) as u8) as char;
    out.push(c);
    proof {
        assert(c == digit((n % 10) as nat));
        if n >= 10 {
            assert(out@ =~= old(out)@ + numeral((n / 10) as nat).push(c));
        } else {
            assert(out@ =~= old(out)@ + numeral(n as nat));
        }
    }
}

/// Where `s` first stands among some texts.
pub fn place_of(texts: &Vec<String>, s: &String) -> (p: Option<usize>)
    ensures
        match p {
            Some(i) => i < texts@.len() && texts@[i as int]@ == s@ && forall|j: int|
                0 <= j < i ==> (#[trigger] texts@[j])@ != s@,
            None => forall|j: int| 0 <= j < texts@.len() ==> (#[trigger] texts@[j])@ != s@,
        },
{
    let mut i: usize = 0;
    while i < texts.len()
        invariant
            i <= texts@.len(),
            forall|j: int| 0 <= j < i ==> (#[trigger] texts@[j])@ != s@,
        decreases texts@.len() - i,
    {
        if texts[i] == *s {
            return Some(i);
        }
        i += 1;
    }
    None
}

/// Texts put together with `c` between them.
pub open spec fn joined(parts: Seq<Seq<char>>, c: char) -> Seq<char>
    decreases parts.len(),
{
    if parts.len() == 0 {
        seq![]
    } else if parts.len() == 1 {
        parts[0]
    } else {
        parts[0] + seq![c] + joined(parts.skip(1), c)
    }
}

/// Whether `c` stands nowhere in `s`.
pub open spec fn lacks(s: Seq<char>, c: char) -> bool {
    forall|i: int| 0 <= i < s.len() ==> #[trigger] s[i] != c
}

/// The pieces of a text lack the separator, and put together with it they are
/// the text again.
pub proof fn pieces_make_the_text(s: Seq<char>, c: char)
    ensures
        split(s, c).len() >= 1,
        joined(split(s, c), c) == s,
        forall|i: int| 0 <= i < split(s, c).len() ==> lacks(#[trigger] split(s, c)[i], c),
    decreases s.len(),
{
    let k = find(s, c);
    lemma_span_is(s, other_than(c));
    if k < s.len() {
        let (first, rest) = (s.take(k), s.skip(k + 1));
        pieces_make_the_text(rest, c);
        let parts = seq![first] + split(rest, c);
        assert(parts.skip(1) =~= split(rest, c));
        assert(!other_than(c)(s[k]));
        assert(first + seq![c] + rest =~= s);
        assert forall|i: int| 0 <= i < parts.len() implies lacks(#[trigger] parts[i], c) by {
            if i == 0 {
                assert forall|j: int| 0 <= j < first.len() implies #[trigger] first[j] != c by {
                    assert(other_than(c)(s[j]));
                }
            } else {
                assert(parts[i] == split(rest, c)[i - 1]);
            }
        }
    } else {
        assert forall|j: int| 0 <= j < s.len() implies #[trigger] s[j] != c by {
            assert(other_than(c)(s[j]));
        }
    }
}

/// Texts that lack the separator, put together with it, are the pieces of what
/// they make.
pub proof fn joined_texts_are_the_pieces(parts: Seq<Seq<char>>, c: char)
    requires
        parts.len() > 0,
        forall|i: int| 0 <= i < parts.len() ==> lacks(#[trigger] parts[i], c),
    ensures
        split(joined(parts, c), c) == parts,
    decreases parts.len(),
{
    assert(lacks(parts[0], c));
    if parts.len() == 1 {
        lemma_split_none(parts[0], c);
        assert(seq![parts[0]] =~= parts);
    } else {
        let rest = parts.skip(1);
        assert forall|i: int| 0 <= i < rest.len() implies lacks(#[trigger] rest[i], c) by {
            assert(rest[i] == parts[i + 1]);
        }
        joined_texts_are_the_pieces(rest, c);
        lemma_split_at(parts[0], c, joined(rest, c));
        assert(seq![parts[0]] + rest =~= parts);
    }
}

/// Whether a text is made of spaces and tabs alone.
pub open spec fn all_blank(s: Seq<char>) -> bool {
    forall|i: int| 0 <= i < s.len() ==> #[trigger] s[i] == ' ' || s[i] == '\t'
}

/// Whether a text neither begins nor ends with a space or a tab.
pub open spec fn no_blank_ends(s: Seq<char>) -> bool {
    s.len() > 0 ==> s[0] != ' ' && s[0] != '\t' && s.last() != ' ' && s.last() != '\t'
}

/// Trimming takes the spaces and tabs off the ends of a text, and nothing else.
pub proof fn trimming_takes_off_blanks(a: Seq<char>, s: Seq<char>, b: Seq<char>)
    requires
        all_blank(a),
        all_blank(b),
        no_blank_ends(s),
    ensures
        trim(a + s + b) == s,
        s.len() > 0 ==> trim_start(a + s + b) == s + b,
{
    let t = a + s + b;
    let p = |c: char| is_blank(c);
    if s.len() > 0 {
        assert forall|i: int| 0 <= i < a.len() implies p(#[trigger] t[i]) by {
            assert(t[i] == a[i]);
        }
        assert(t[a.len() as int] == s[0]);
        lemma_span(t, p, a.len() as int);
        assert(t.skip(a.len() as int) =~= s + b);
        lemma_trim_end(s, b);
    } else {
        assert forall|i: int| 0 <= i < t.len() implies p(#[trigger] t[i]) by {
            assert(t[i] == if i < a.len() {
                a[i]
            } else {
                b[i - a.len()]
            });
        }
        lemma_span(t, p, t.len() as int);
        assert(t.skip(t.len() as int) =~= s);
    }
}

proof fn lemma_trim_end(s: Seq<char>, b: Seq<char>)
    requires
        all_blank(b),
        s.len() > 0,
        s.last() != ' ' && s.last() != '\t',
    ensures
        trim_end(s + b) == s,
    decreases b.len(),
{
    if b.len() > 0 {
        let front = b.drop_last();
        assert forall|i: int| 0 <= i < front.len() implies #[trigger] front[i] == ' ' || front[i]
            == '\t' by {
            assert(front[i] == b[i]);
        }
        assert((s + b).last() == b[b.len() - 1]);
        assert((s + b).drop_last() =~= s + front);
        lemma_trim_end(s, front);
    } else {
        assert(s + b =~= s);
    }
}

/// A number is read digit by digit: one digit stands for its value, and a digit
/// behind a number adds its value to ten times the number. Anything but digits,
/// and a number of more than 32 bits, is no number.
pub proof fn numbers_are_read_digit_by_digit(s: Seq<char>, c: char)
    ensures
        number(seq![]) is None,
        number(seq![c]) == (if '0' <= c && c <= '9' {
            Some((c as u32 - 48) as u32)
        } else {
            None
        }),
        s.len() > 0 ==> number(s.push(c)) == (match number(s) {
            Some(n) => if '0' <= c && c <= '9' && n * 10 + (c as int - 48) <= 0xffff_ffff {
                Some((n * 10 + (c as int - 48)) as u32)
            } else {
                None
            },
            None => None,
        }),
{
    let one = seq![c];
    assert(one.drop_last() =~= seq![]);
    assert(decimal(one.drop_last()) == 0);
    assert(one[0] == c);
    let t = s.push(c);
    assert(t.drop_last() =~= s);
    assert(t[s.len() as int] == c);
    if forall|i: int| 0 <= i < t.len() ==> is_digit(t[i]) {
        assert forall|i: int| 0 <= i < s.len() implies is_digit(s[i]) by {
            assert(t[i] == s[i]);
        }
    }
    if is_digit(c) && forall|i: int| 0 <= i < s.len() ==> is_digit(s[i]) {
        assert forall|i: int| 0 <= i < t.len() implies is_digit(t[i]) by {
            if i < s.len() {
                assert(t[i] == s[i]);
            }
        }
    }
}

/// A number below ten is written as one digit; of another one the last digit is
/// the remainder by ten, and in front of it stands the tenth part.
pub proof fn numbers_are_written_digit_by_digit(n: nat)
    ensures
        n < 10 ==> numeral(n) == seq![(48 + n) as char],
        n >= 10 ==> numeral(n) == numeral(n / 10).push((48 + n % 10) as char),
{
}

/// `find` gives the first place of a character, or the length of the text.
pub proof fn first_place_is_found(s: Seq<char>, c: char)
    ensures
        0 <= find(s, c) <= s.len(),
        lacks(s.take(find(s, c)), c),
        find(s, c) < s.len() ==> s[find(s, c)] == c,
{
    lemma_span_is(s, other_than(c));
    let k = find(s, c);
    assert forall|i: int| 0 <= i < k implies #[trigger] s.take(k)[i] != c by {
        assert(other_than(c)(s[i]));
    }
    if k < s.len() {
        assert(!other_than(c)(s[k]));
    }
}

/// A text begins with just those texts that something can be put behind to
/// make it.
pub proof fn beginnings_can_be_completed(s: Seq<char>, t: Seq<char>)
    ensures
        begins(s + t, s),
        begins(t, s) ==> s + t.skip(s.len() as int) == t,
{
    assert((s + t).take(s.len() as int) =~= s);
    if begins(t, s) {
        assert(t.take(s.len() as int) + t.skip(s.len() as int) =~= t);
    }
}

/// In lower case, an ASCII text has a small letter for each capital one and is
/// otherwise as it was. Two ASCII texts that differ in the case of letters alone
/// are the same in lower case.
pub proof fn capital_letters_become_small(s: Seq<char>)
    requires
        forall|i: int| 0 <= i < s.len() ==> (#[trigger] s[i] as int) < 128,
    ensures
        lowercase(s).len() == s.len(),
        forall|i: int|
            0 <= i < s.len() ==> #[trigger] lowercase(s)[i] as int == (if 65 <= s[i] as int
                && s[i] as int <= 90 {
                s[i] as int + 32
            } else {
                s[i] as int
            }),
        lowercase(lowercase(s)) == lowercase(s),
{
    assert(all_ascii(s));
    let t = lowercase(s);
    assert forall|i: int| 0 <= i < t.len() implies #[trigger] t[i] <= '\x7f' by {
        assert((s[i] as int) < 128);
    }
    assert(all_ascii(t));
    assert(lowercase(t) =~= t);
}

/// A text with a character that is not ASCII is put in lower case by the Unicode
/// tables.
pub proof fn other_texts_go_by_the_tables(s: Seq<char>, i: int)
    requires
        0 <= i < s.len(),
        (s[i] as int) >= 128,
    ensures
        lowercase(s) == unicode_lowercase(s),
{
}

} // verus!
