//! Versions: their order, how they are written and how they are read.

use crate::error::DependencyError;
use crate::text::{
    chars_of, is_digit, joined, joined_texts_are_the_pieces, lacks, lemma_number_of_numeral,
    lemma_numeral_digits, lemma_split_at, lemma_split_none, number, numeral, push_number,
    read_number, split, split_chars,
};
use std::cmp::Ordering;
use vstd::prelude::*;

verus! {

/// A release of a package. A part that is not written counts as zero.
#[derive(Clone, Copy, Debug, PartialEq, Eq, Ord, Hash, Structural)]
pub struct Version {
    pub major: u32,
    pub minor: u32,
    pub patch: u32,
}

impl DeepView for Version {
    type V = Version;

    open spec fn deep_view(&self) -> Version {
        *self
    }
}

impl Version {
    /// The order of versions: by major, then by minor, then by patch.
    pub open spec fn at_most(self, other: Version) -> bool {
        ||| self.major < other.major
        ||| self.major == other.major && self.minor < other.minor
        ||| self.major == other.major && self.minor == other.minor && self.patch <= other.patch
    }
}

impl PartialOrd for Version {
    fn partial_cmp(&self, other: &Version) -> (r: Option<Ordering>) {
        if self.major != other.major {
            if self.major < other.major { Some(Ordering::Less) } else { Some(Ordering::Greater) }
        } else if self.minor != other.minor {
            if self.minor < other.minor { Some(Ordering::Less) } else { Some(Ordering::Greater) }
        } else if self.patch != other.patch {
            if self.patch < other.patch { Some(Ordering::Less) } else { Some(Ordering::Greater) }
        } else {
            Some(Ordering::Equal)
        }
    }
}

impl vstd::std_specs::cmp::PartialOrdSpecImpl for Version {
    open spec fn obeys_partial_cmp_spec() -> bool {
        true
    }

    open spec fn partial_cmp_spec(&self, other: &Version) -> Option<Ordering> {
        if self == other {
            Some(Ordering::Equal)
        } else if self.at_most(*other) {
            Some(Ordering::Less)
        } else {
            Some(Ordering::Greater)
        }
    }
}

/// A version in full: three numbers and two dots.
pub open spec fn written(v: Version) -> Seq<char> {
    numeral(v.major as nat) + seq!['.'] + (numeral(v.minor as nat) + seq!['.'] + numeral(
        v.patch as nat,
    ))
}

/// A version without its patch.
pub open spec fn written_med(v: Version) -> Seq<char> {
    numeral(v.major as nat) + seq!['.'] + numeral(v.minor as nat)
}

/// A version by its major number alone.
pub open spec fn written_short(v: Version) -> Seq<char> {
    numeral(v.major as nat)
}

/// The version that a text stands for: one to three numbers between dots,
/// those left out being zero.
pub open spec fn parse_version(s: Seq<char>) -> Option<Version> {
    let parts = split(s, '.');
    if parts.len() <= 3 && (forall|i: int|
        0 <= i < parts.len() ==> number(#[trigger] parts[i]) is Some) {
        Some(
            Version {
                major: number(parts[0])->0,
                minor: if parts.len() > 1 { number(parts[1])->0 } else { 0 },
                patch: if parts.len() > 2 { number(parts[2])->0 } else { 0 },
            },
        )
    } else {
        None
    }
}

/// The greatest of some versions.
pub open spec fn greatest(s: Seq<Version>) -> Option<Version>
    decreases s.len(),
{
    if s.len() == 0 {
        None
    } else {
        match greatest(s.drop_last()) {
            Some(m) => if m.at_most(s.last()) { Some(s.last()) } else { Some(m) },
            None => Some(s.last()),
        }
    }
}

impl Version {
    /// The version with these numbers.
    pub fn new(major: u32, minor: u32, patch: u32) -> (v: Version)
        ensures
            v == (Version { major, minor, patch }),
    {
        Version { major, minor, patch }
    }

    /// Reads a version.
    pub fn from_str(s: &str) -> (r: Result<Version, DependencyError>)
        ensures
            match r {
                Ok(v) => parse_version(s@) == Some(v),
                Err(e) => parse_version(s@) is None && e.details@ == "Problem parsing version: "@
                    + s@,
            },
    {
        let chars = chars_of(s);
        match Version::from_chars(chars.as_slice()) {
            Some(v) => Ok(v),
            None => Err(DependencyError::new("Problem parsing version: ", s)),
        }
    }

    /// Reads a version from its characters.
    pub fn from_chars(s: &[char]) -> (r: Option<Version>)
        ensures
            r == parse_version(s@),
    {
        let parts = split_chars(s, '.');
        if parts.len() > 3 {
            return None;
        }
        let mut numbers: [u32; 3] = [0, 0, 0];
        let mut i: usize = 0;
        while i < parts.len()
            invariant
                i <= parts@.len() <= 3,
                parts@.len() == split(s@, '.').len(),
                forall|j: int|
                    0 <= j < parts@.len() ==> (#[trigger] parts@[j])@ == split(s@, '.')[j],
                forall|j: int|
                    0 <= j < i ==> number(#[trigger] split(s@, '.')[j]) == Some(numbers@[j]),
                forall|j: int| i <= j < 3 ==> numbers@[j] == 0,
            decreases parts@.len() - i,
        {
            match read_number(parts[i]) {
                Some(n) => {
                    numbers[i] = n;
                },
                None => {
                    proof {
                        assert(number(split(s@, '.')[i as int]) is None);
                    }
                    return None;
                },
            }
            i += 1;
        }
        proof {
            lemma_split_pieces(s@, '.');
            assert(number(split(s@, '.')[0]) == Some(numbers@[0]));
        }
        Some(Version { major: numbers[0], minor: numbers[1], patch: numbers[2] })
    }

    /// The version in full, as the package index is asked for it.
    pub fn to_string2(&self) -> (s: String)
        ensures
            s@ == written(*self),
    {
        let mut s = String::new();
        push_number(&mut s, self.major);
        s.push('.');
        push_number(&mut s, self.minor);
        s.push('.');
        push_number(&mut s, self.patch);
        proof {
            assert(s@ =~= written(*self));
        }
        s
    }

    /// The version in full.
    pub fn to_string(&self) -> (s: String)
        ensures
            s@ == written(*self),
    {
        self.to_string2()
    }

    /// The version without its patch.
    pub fn to_string_med(&self) -> (s: String)
        ensures
            s@ == written_med(*self),
    {
        let mut s = String::new();
        push_number(&mut s, self.major);
        s.push('.');
        push_number(&mut s, self.minor);
        proof {
            assert(s@ =~= written_med(*self));
        }
        s
    }

    /// The version by its major number alone.
    pub fn to_string_short(&self) -> (s: String)
        ensures
            s@ == written_short(*self),
    {
        let mut s = String::new();
        push_number(&mut s, self.major);
        proof {
            assert(s@ =~= written_short(*self));
        }
        s
    }
}

/// The greatest of some versions.
pub fn max_version(s: &[Version]) -> (m: Option<Version>)
    ensures
        m == greatest(s@),
{
    let mut m: Option<Version> = None;
    let mut i: usize = 0;
    while i < s.len()
        invariant
            i <= s@.len(),
            m == greatest(s@.take(i as int)),
        decreases s@.len() - i,
    {
        proof {
            assert(s@.take(i + 1).drop_last() =~= s@.take(i as int));
        }
        m = match m {
            Some(best) => if best <= s[i] { Some(s[i]) } else { Some(best) },
            None => Some(s[i]),
        };
        i += 1;
    }
    proof {
        assert(s@.take(s@.len() as int) =~= s@);
    }
    m
}

/// The lesser of two versions.
pub open spec fn lesser(a: Version, b: Version) -> Version {
    if a.at_most(b) {
        a
    } else {
        b
    }
}

/// The lesser of two versions.
pub fn min_version(a: Version, b: Version) -> (m: Version)
    ensures
        m == lesser(a, b),
{
    if a <= b {
        a
    } else {
        b
    }
}

/// A text always splits into at least one piece.
pub proof fn lemma_split_pieces(s: Seq<char>, c: char)
    ensures
        split(s, c).len() >= 1,
{
}

/// A numeral holds no dot.
proof fn lemma_numeral_no_dot(n: nat)
    ensures
        forall|i: int| 0 <= i < numeral(n).len() ==> numeral(n)[i] != '.',
{
    lemma_numeral_digits(n);
    assert forall|i: int| 0 <= i < numeral(n).len() implies numeral(n)[i] != '.' by {
        assert(is_digit(numeral(n)[i]));
    }
}

/// Versions are totally ordered.
pub proof fn version_order_is_total(a: Version, b: Version, c: Version)
    ensures
        a.at_most(a),
        a.at_most(b) || b.at_most(a),
        a.at_most(b) && b.at_most(a) ==> a == b,
        a.at_most(b) && b.at_most(c) ==> a.at_most(c),
{
}

/// The greatest of some versions is one of them, and none is above it.
pub proof fn greatest_is_greatest(s: Seq<Version>)
    ensures
        greatest(s) is None <==> s.len() == 0,
        greatest(s) matches Some(m) ==> s.contains(m) && forall|i: int|
            0 <= i < s.len() ==> (#[trigger] s[i]).at_most(m),
    decreases s.len(),
{
    if s.len() > 0 {
        greatest_is_greatest(s.drop_last());
        let m = greatest(s)->0;
        assert(s.last() == s[s.len() - 1]);
        if let Some(p) = greatest(s.drop_last()) {
            let k = choose|k: int| 0 <= k < s.drop_last().len() && s.drop_last()[k] == p;
            assert(s[k] == p);
        }
        assert forall|i: int| 0 <= i < s.len() implies (#[trigger] s[i]).at_most(m) by {
            if i < s.len() - 1 {
                assert(s[i] == s.drop_last()[i]);
            }
        }
    }
}

/// A version written in full is read back as it was.
pub proof fn written_reads_back(v: Version)
    ensures
        parse_version(written(v)) == Some(v),
{
    let (a, b, c) = (
        numeral(v.major as nat),
        numeral(v.minor as nat),
        numeral(v.patch as nat),
    );
    lemma_numeral_no_dot(v.major as nat);
    lemma_numeral_no_dot(v.minor as nat);
    lemma_numeral_no_dot(v.patch as nat);
    lemma_split_at(a, '.', b + seq!['.'] + c);
    lemma_split_at(b, '.', c);
    lemma_split_none(c, '.');
    lemma_number_of_numeral(v.major);
    lemma_number_of_numeral(v.minor);
    lemma_number_of_numeral(v.patch);
    assert(split(written(v), '.') =~= seq![a, b, c]);
}

/// A version whose patch is zero is read back from the form without a patch,
/// and one whose minor number is zero as well from the shortest form.
pub proof fn shorter_forms_read_back(v: Version)
    ensures
        v.patch == 0 ==> parse_version(written_med(v)) == Some(v),
        v.patch == 0 && v.minor == 0 ==> parse_version(written_short(v)) == Some(v),
{
    let (a, b) = (numeral(v.major as nat), numeral(v.minor as nat));
    lemma_numeral_no_dot(v.major as nat);
    lemma_numeral_no_dot(v.minor as nat);
    lemma_split_at(a, '.', b);
    lemma_split_none(b, '.');
    lemma_split_none(a, '.');
    lemma_number_of_numeral(v.major);
    lemma_number_of_numeral(v.minor);
    assert(split(written_med(v), '.') =~= seq![a, b]);
    assert(split(written_short(v), '.') =~= seq![a]);
}

/// The number that the three numbers of a version make, each taken as a digit
/// to the base of all that fits in 32 bits.
pub open spec fn rank(v: Version) -> int {
    (v.major * 0x1_0000_0000 + v.minor) * 0x1_0000_0000 + v.patch
}

/// Versions are ordered by the number that their numbers make, and no two make
/// the same one.
pub proof fn versions_are_ordered_by_their_numbers(a: Version, b: Version)
    ensures
        a.at_most(b) <==> rank(a) <= rank(b),
        a == b <==> rank(a) == rank(b),
        lesser(a, b) == a || lesser(a, b) == b,
        lesser(a, b).at_most(a) && lesser(a, b).at_most(b),
{
}

/// A version in full is its three numbers in decimal with dots between them;
/// the shorter forms leave out the last one or the last two.
pub proof fn versions_are_written_by_their_numbers(v: Version)
    ensures
        written(v) == joined(
            seq![numeral(v.major as nat), numeral(v.minor as nat), numeral(v.patch as nat)],
            '.',
        ),
        written_med(v) == joined(seq![numeral(v.major as nat), numeral(v.minor as nat)], '.'),
        written_short(v) == numeral(v.major as nat),
{
    reveal_with_fuel(joined, 4);
    let (a, b, c) = (
        numeral(v.major as nat),
        numeral(v.minor as nat),
        numeral(v.patch as nat),
    );
    assert(seq![a, b, c].skip(1) =~= seq![b, c]);
    assert(seq![b, c].skip(1) =~= seq![c]);
    assert(seq![a, b].skip(1) =~= seq![b]);
}

/// A text is read as a version by the numbers between its dots: the first is
/// the major number, the second the minor number and the third the patch, and
/// those that are not there are zero. A text with more than three pieces, or
/// with a piece that is no number, is no version.
pub proof fn versions_are_read_by_their_numbers(parts: Seq<Seq<char>>)
    requires
        parts.len() > 0,
        forall|i: int| 0 <= i < parts.len() ==> lacks(#[trigger] parts[i], '.'),
    ensures
        match parse_version(joined(parts, '.')) {
            Some(v) => {
                &&& parts.len() <= 3
                &&& number(parts[0]) == Some(v.major)
                &&& if parts.len() > 1 {
                    number(parts[1]) == Some(v.minor)
                } else {
                    v.minor == 0
                }
                &&& if parts.len() > 2 {
                    number(parts[2]) == Some(v.patch)
                } else {
                    v.patch == 0
                }
            },
            None => parts.len() > 3 || exists|i: int|
                0 <= i < parts.len() && number(#[trigger] parts[i]) is None,
        },
{
    joined_texts_are_the_pieces(parts, '.');
}

/// Each form of a version has as many pieces between dots as it has numbers.
pub proof fn lemma_written_pieces(v: Version)
    ensures
        split(written(v), '.').len() == 3,
        split(written_med(v), '.').len() == 2,
{
    let (a, b, c) = (
        numeral(v.major as nat),
        numeral(v.minor as nat),
        numeral(v.patch as nat),
    );
    lemma_numeral_no_dot(v.major as nat);
    lemma_numeral_no_dot(v.minor as nat);
    lemma_numeral_no_dot(v.patch as nat);
    lemma_split_at(a, '.', b + seq!['.'] + c);
    lemma_split_at(b, '.', c);
    lemma_split_at(a, '.', b);
    lemma_split_none(c, '.');
    lemma_split_none(b, '.');
}

/// Whether a text is made of digits and dots, and not empty.
pub open spec fn digits_and_dots(s: Seq<char>) -> bool {
    s.len() > 0 && forall|i: int| 0 <= i < s.len() ==> is_digit(#[trigger] s[i]) || s[i] == '.'
}

/// A version is written with digits and dots.
pub proof fn lemma_written_plain(v: Version)
    ensures
        digits_and_dots(written(v)),
        digits_and_dots(written_med(v)),
{
    let (a, b, c) = (
        numeral(v.major as nat),
        numeral(v.minor as nat),
        numeral(v.patch as nat),
    );
    lemma_numeral_digits(v.major as nat);
    lemma_numeral_digits(v.minor as nat);
    lemma_numeral_digits(v.patch as nat);
    let (m, s) = (written_med(v), written(v));
    assert forall|i: int| 0 <= i < m.len() implies is_digit(#[trigger] m[i]) || m[i] == '.' by {
        if i < a.len() {
            assert(m[i] == a[i]);
        } else if i > a.len() {
            assert(m[i] == b[i - a.len() - 1]);
        }
    }
    assert forall|i: int| 0 <= i < s.len() implies is_digit(#[trigger] s[i]) || s[i] == '.' by {
        if i < m.len() {
            assert(s[i] == m[i]);
        } else if i > m.len() {
            assert(s[i] == c[i - m.len() - 1]);
        }
    }
}

} // verus!
