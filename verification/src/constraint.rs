//! Constraints on versions: which versions they admit, and how they are read.

use crate::text::{
    all_blank, is_blank, is_digit, joined, joined_texts_are_the_pieces, lacks, lemma_span_is,
    no_blank_ends, span, split, split_chars, trim, trim_chars, trim_end, trim_start,
    trimming_takes_off_blanks,
};
use crate::version::{
    lemma_written_pieces, lemma_written_plain, parse_version, rank, shorter_forms_read_back,
    versions_are_ordered_by_their_numbers, written, written_med, written_reads_back, Version,
};
use vstd::prelude::*;
use vstd::slice::slice_subrange;

verus! {

/// How a version is compared with the one that a constraint names.
#[derive(Clone, Copy, Debug, PartialEq, Eq, Structural)]
pub enum ReqType {
    /// The very version.
    Exact,
    /// Any version but this one.
    Ne,
    /// The version or a later one.
    Gte,
    /// The version or an earlier one.
    Lte,
    /// A later version.
    Gt,
    /// An earlier version.
    Lt,
    /// The version or a later one with the same major number.
    Caret,
    /// The version or a later one with the same major and minor numbers.
    Tilde,
}

/// A condition on versions.
#[derive(Clone, Copy, Debug, PartialEq, Eq, Structural)]
pub struct Constraint {
    pub type_: ReqType,
    pub version: Version,
}

impl DeepView for Constraint {
    type V = Constraint;

    open spec fn deep_view(&self) -> Constraint {
        *self
    }
}

/// The least version.
pub open spec fn lowest() -> Version {
    Version { major: 0, minor: 0, patch: 0 }
}

/// The greatest version that can be written down.
pub open spec fn highest() -> Version {
    Version { major: u32::MAX, minor: u32::MAX, patch: u32::MAX }
}

/// The range from the next version after `v` on. No version lies in it if
/// there is no next one.
pub open spec fn above(v: Version) -> (Version, Version) {
    if v.patch < u32::MAX {
        (Version { patch: (v.patch + 1) as u32, ..v }, highest())
    } else if v.minor < u32::MAX {
        (Version { minor: (v.minor + 1) as u32, patch: 0, ..v }, highest())
    } else if v.major < u32::MAX {
        (Version { major: (v.major + 1) as u32, minor: 0, patch: 0 }, highest())
    } else {
        (highest(), lowest())
    }
}

/// The range up to the last version before `v`. No version lies in it if
/// there is none before.
pub open spec fn below(v: Version) -> (Version, Version) {
    if v.patch > 0 {
        (lowest(), Version { patch: (v.patch - 1) as u32, ..v })
    } else if v.minor > 0 {
        (lowest(), Version { minor: (v.minor - 1) as u32, patch: u32::MAX, ..v })
    } else if v.major > 0 {
        (lowest(), Version { major: (v.major - 1) as u32, minor: u32::MAX, patch: u32::MAX })
    } else {
        (highest(), lowest())
    }
}

/// Whether a version lies in a range, ends included.
pub open spec fn within(v: Version, range: (Version, Version)) -> bool {
    range.0.at_most(v) && v.at_most(range.1)
}

impl Constraint {
    /// Whether the constraint admits `v`.
    pub open spec fn admits(self, v: Version) -> bool {
        let w = self.version;
        match self.type_ {
            ReqType::Exact => v == w,
            ReqType::Ne => v != w,
            ReqType::Gte => w.at_most(v),
            ReqType::Lte => v.at_most(w),
            ReqType::Gt => !v.at_most(w),
            ReqType::Lt => !w.at_most(v),
            ReqType::Caret => w.at_most(v) && v.major == w.major,
            ReqType::Tilde => w.at_most(v) && v.major == w.major && v.minor == w.minor,
        }
    }

    /// The ranges of versions that the constraint admits, the lower one first.
    pub open spec fn ranges(self) -> Seq<(Version, Version)> {
        let v = self.version;
        match self.type_ {
            ReqType::Exact => seq![(v, v)],
            ReqType::Ne => seq![below(v), above(v)],
            ReqType::Gte => seq![(v, highest())],
            ReqType::Lte => seq![(lowest(), v)],
            ReqType::Gt => seq![above(v)],
            ReqType::Lt => seq![below(v)],
            ReqType::Caret => seq![(v, Version { minor: u32::MAX, patch: u32::MAX, ..v })],
            ReqType::Tilde => seq![(v, Version { patch: u32::MAX, ..v })],
        }
    }

    /// The constraint with this comparison and this version.
    pub fn new(type_: ReqType, version: Version) -> (c: Constraint)
        ensures
            c == (Constraint { type_, version }),
    {
        Constraint { type_, version }
    }

    /// Whether the constraint admits `version`.
    pub fn is_compatible(&self, version: &Version) -> (b: bool)
        ensures
            b == self.admits(*version),
    {
        let v = *version;
        let w = self.version;
        match self.type_ {
            ReqType::Exact => v == w,
            ReqType::Ne => v != w,
            ReqType::Gte => w <= v,
            ReqType::Lte => v <= w,
            ReqType::Gt => w < v,
            ReqType::Lt => v < w,
            ReqType::Caret => w <= v && v.major == w.major,
            ReqType::Tilde => w <= v && v.major == w.major && v.minor == w.minor,
        }
    }

    /// The ranges of versions that the constraint admits, the lower one
    /// first: two of them for `Ne`, one for the others.
    pub fn compatible_range(&self) -> (r: Vec<(Version, Version)>)
        ensures
            r@ == self.ranges(),
    {
        let v = self.version;
        let first = Version::new(0, 0, 0);
        let last = Version::new(u32::MAX, u32::MAX, u32::MAX);
        match self.type_ {
            ReqType::Exact => vec![(v, v)],
            ReqType::Ne => vec![range_below(v), range_above(v)],
            ReqType::Gte => vec![(v, last)],
            ReqType::Lte => vec![(first, v)],
            ReqType::Gt => vec![range_above(v)],
            ReqType::Lt => vec![range_below(v)],
            ReqType::Caret => vec![(v, Version::new(v.major, u32::MAX, u32::MAX))],
            ReqType::Tilde => vec![(v, Version::new(v.major, v.minor, u32::MAX))],
        }
    }
}

fn range_above(v: Version) -> (r: (Version, Version))
    ensures
        r == above(v),
{
    let last = Version::new(u32::MAX, u32::MAX, u32::MAX);
    if v.patch < u32::MAX {
        (Version::new(v.major, v.minor, v.patch + 1), last)
    } else if v.minor < u32::MAX {
        (Version::new(v.major, v.minor + 1, 0), last)
    } else if v.major < u32::MAX {
        (Version::new(v.major + 1, 0, 0), last)
    } else {
        (last, Version::new(0, 0, 0))
    }
}

fn range_below(v: Version) -> (r: (Version, Version))
    ensures
        r == below(v),
{
    let first = Version::new(0, 0, 0);
    if v.patch > 0 {
        (first, Version::new(v.major, v.minor, v.patch - 1))
    } else if v.minor > 0 {
        (first, Version::new(v.major, v.minor - 1, u32::MAX))
    } else if v.major > 0 {
        (first, Version::new(v.major - 1, u32::MAX, u32::MAX))
    } else {
        (Version::new(u32::MAX, u32::MAX, u32::MAX), first)
    }
}

/// Whether every one of the constraints admits `v`.
pub open spec fn all_admit(constraints: Seq<Constraint>, v: Version) -> bool {
    forall|i: int| 0 <= i < constraints.len() ==> (#[trigger] constraints[i]).admits(v)
}

/// Whether a version meets all of the constraints.
pub fn is_compat(constraints: &[Constraint], vers: &Version) -> (b: bool)
    ensures
        b == all_admit(constraints@, *vers),
{
    let mut i: usize = 0;
    while i < constraints.len()
        invariant
            i <= constraints@.len(),
            forall|j: int| 0 <= j < i ==> (#[trigger] constraints@[j]).admits(*vers),
        decreases constraints@.len() - i,
    {
        if !constraints[i].is_compatible(vers) {
            return false;
        }
        i += 1;
    }
    true
}

/// The comparison that stands at the front of a text, and its length.
pub open spec fn operator(s: Seq<char>) -> Option<(ReqType, int)> {
    if s.len() >= 2 && s[1] == '=' && s[0] == '=' {
        Some((ReqType::Exact, 2))
    } else if s.len() >= 2 && s[1] == '=' && s[0] == '!' {
        Some((ReqType::Ne, 2))
    } else if s.len() >= 2 && s[1] == '=' && s[0] == '>' {
        Some((ReqType::Gte, 2))
    } else if s.len() >= 2 && s[1] == '=' && s[0] == '<' {
        Some((ReqType::Lte, 2))
    } else if s.len() >= 2 && s[1] == '=' && s[0] == '~' {
        Some((ReqType::Tilde, 2))
    } else if s.len() >= 1 && s[0] == '>' {
        Some((ReqType::Gt, 1))
    } else if s.len() >= 1 && s[0] == '<' {
        Some((ReqType::Lt, 1))
    } else {
        None
    }
}

/// The constraint made of a comparison and the text of a version. In
/// `~= 1.4.5` the last number may grow, so that the minor number is held; in
/// `~= 1.4` only the major number is. `~= 1` means nothing.
pub open spec fn constraint_of(type_: ReqType, text: Seq<char>) -> Option<Constraint> {
    match parse_version(text) {
        None => None,
        Some(version) => if type_ != ReqType::Tilde || split(text, '.').len() == 3 {
            Some(Constraint { type_, version })
        } else if split(text, '.').len() == 2 {
            Some(Constraint { type_: ReqType::Caret, version })
        } else {
            None
        },
    }
}

/// The constraint that a text stands for: a comparison and a version.
pub open spec fn parse_constraint(s: Seq<char>) -> Option<Constraint> {
    match operator(trim(s)) {
        None => None,
        Some((type_, n)) => constraint_of(type_, trim(trim(s).skip(n))),
    }
}

/// The constraints that a text stands for, with commas between them.
pub open spec fn parse_constraints(s: Seq<char>) -> Option<Seq<Constraint>> {
    let parts = split(s, ',');
    if trim(s).len() == 0 {
        Some(seq![])
    } else if forall|i: int|
        0 <= i < parts.len() ==> parse_constraint(#[trigger] parts[i]) is Some {
        Some(Seq::new(parts.len(), |i: int| parse_constraint(parts[i])->0))
    } else {
        None
    }
}

/// The comparison that stands at the front of a text, and its length.
pub fn read_operator(s: &[char]) -> (r: Option<(ReqType, usize)>)
    ensures
        match r {
            Some((t, n)) => operator(s@) == Some((t, n as int)) && n <= s@.len(),
            None => operator(s@) is None,
        },
{
    if s.len() >= 2 && s[1] == '=' {
        if s[0] == '=' {
            return Some((ReqType::Exact, 2));
        } else if s[0] == '!' {
            return Some((ReqType::Ne, 2));
        } else if s[0] == '>' {
            return Some((ReqType::Gte, 2));
        } else if s[0] == '<' {
            return Some((ReqType::Lte, 2));
        } else if s[0] == '~' {
            return Some((ReqType::Tilde, 2));
        }
    }
    if s.len() >= 1 && s[0] == '>' {
        Some((ReqType::Gt, 1))
    } else if s.len() >= 1 && s[0] == '<' {
        Some((ReqType::Lt, 1))
    } else {
        None
    }
}

/// The constraint made of a comparison and the text of a version.
pub fn read_version_constraint(type_: ReqType, text: &[char]) -> (r: Option<Constraint>)
    ensures
        r == constraint_of(type_, text@),
{
    match Version::from_chars(text) {
        None => None,
        Some(version) => {
            let parts = split_chars(text, '.').len();
            if type_ != ReqType::Tilde || parts == 3 {
                Some(Constraint { type_, version })
            } else if parts == 2 {
                Some(Constraint { type_: ReqType::Caret, version })
            } else {
                None
            }
        },
    }
}

/// Reads one constraint.
pub fn read_constraint(s: &[char]) -> (r: Option<Constraint>)
    ensures
        r == parse_constraint(s@),
{
    let s = trim_chars(s);
    match read_operator(s) {
        None => None,
        Some((type_, n)) => {
            let rest = slice_subrange(s, n, s.len());
            proof {
                assert(rest@ =~= s@.skip(n as int));
            }
            read_version_constraint(type_, trim_chars(rest))
        },
    }
}

/// Reads constraints with commas between them.
pub fn read_constraints(s: &[char]) -> (r: Option<Vec<Constraint>>)
    ensures
        match r {
            Some(v) => parse_constraints(s@) == Some(v@),
            None => parse_constraints(s@) is None,
        },
{
    let mut out: Vec<Constraint> = Vec::new();
    if trim_chars(s).len() == 0 {
        proof {
            assert(out@ =~= seq![]);
        }
        return Some(out);
    }
    let parts = split_chars(s, ',');
    let ghost pieces = split(s@, ',');
    let mut i: usize = 0;
    while i < parts.len()
        invariant
            i <= parts@.len(),
            parts@.len() == pieces.len(),
            pieces == split(s@, ','),
            trim(s@).len() != 0,
            forall|j: int| 0 <= j < parts@.len() ==> (#[trigger] parts@[j])@ == pieces[j],
            out@.len() == i,
            forall|j: int|
                0 <= j < i ==> parse_constraint(#[trigger] pieces[j]) == Some(out@[j]),
        decreases parts@.len() - i,
    {
        match read_constraint(parts[i]) {
            Some(c) => {
                out.push(c);
            },
            None => {
                proof {
                    assert(parse_constraint(pieces[i as int]) is None);
                }
                return None;
            },
        }
        i += 1;
    }
    proof {
        assert(out@ =~= Seq::new(pieces.len(), |i: int| parse_constraint(pieces[i])->0));
    }
    Some(out)
}

/// A constraint admits a version exactly when the version lies in one of the
/// constraint's ranges.
pub proof fn admitted_versions_are_the_ranges(c: Constraint, v: Version)
    ensures
        c.admits(v) <==> exists|i: int|
            0 <= i < c.ranges().len() && within(v, #[trigger] c.ranges()[i]),
{
    let r = c.ranges();
    if r.len() == 1 {
        assert(within(v, r[0]) == c.admits(v));
    } else {
        assert(c.admits(v) == (within(v, r[0]) || within(v, r[1])));
    }
}

/// There are two ranges for `Ne`, the second one above the version named,
/// and one range for any other constraint.
pub proof fn number_of_ranges(c: Constraint, v: Version)
    ensures
        c.type_ == ReqType::Ne ==> c.ranges().len() == 2 && (within(v, c.ranges()[1])
            <==> !v.at_most(c.version)),
        c.type_ != ReqType::Ne ==> c.ranges().len() == 1,
{
}

/// What each comparison means, over the numbers that versions make.
pub proof fn comparisons_go_by_the_order(c: Constraint, v: Version)
    ensures
        c.admits(v) <==> match c.type_ {
            ReqType::Exact => rank(v) == rank(c.version),
            ReqType::Ne => rank(v) != rank(c.version),
            ReqType::Gte => rank(v) >= rank(c.version),
            ReqType::Lte => rank(v) <= rank(c.version),
            ReqType::Gt => rank(v) > rank(c.version),
            ReqType::Lt => rank(v) < rank(c.version),
            ReqType::Caret => rank(v) >= rank(c.version) && v.major == c.version.major,
            ReqType::Tilde => rank(v) >= rank(c.version) && v.major == c.version.major && v.minor
                == c.version.minor,
        },
{
    versions_are_ordered_by_their_numbers(v, c.version);
    versions_are_ordered_by_their_numbers(c.version, v);
}

/// Any version meets no constraints, and one more constraint is met by just
/// those versions that meet it and the others.
pub proof fn constraints_are_met_one_by_one(cs: Seq<Constraint>, c: Constraint, v: Version)
    ensures
        all_admit(seq![], v),
        all_admit(cs.push(c), v) <==> all_admit(cs, v) && c.admits(v),
{
    let more = cs.push(c);
    if all_admit(more, v) {
        assert forall|i: int| 0 <= i < cs.len() implies (#[trigger] cs[i]).admits(v) by {
            assert(more[i] == cs[i]);
        }
        assert(more[cs.len() as int] == c);
    }
}

/// The sign for a comparison.
pub open spec fn sign(type_: ReqType) -> Seq<char> {
    match type_ {
        ReqType::Exact => seq!['=', '='],
        ReqType::Ne => seq!['!', '='],
        ReqType::Gte => seq!['>', '='],
        ReqType::Lte => seq!['<', '='],
        ReqType::Gt => seq!['>'],
        ReqType::Lt => seq!['<'],
        ReqType::Caret => seq!['~', '='],
        ReqType::Tilde => seq!['~', '='],
    }
}

/// The sign at the front of a text is read as its comparison. There is none
/// exactly if the text begins with none of the signs.
pub proof fn signs_are_read(type_: ReqType, x: Seq<char>, s: Seq<char>)
    requires
        type_ != ReqType::Caret,
        x.len() > 0 ==> x[0] != '=',
    ensures
        operator(sign(type_) + x) == Some((type_, sign(type_).len() as int)),
        operator(s) is None <==> {
            &&& s.len() == 0 || s[0] != '<' && s[0] != '>'
            &&& s.len() < 2 || s[1] != '=' || s[0] != '=' && s[0] != '!' && s[0] != '~'
        },
{
}

/// A constraint is read as the comparison that its sign stands for, with the
/// version behind it; spaces and tabs do not matter. What cannot be read as a
/// version makes no constraint. Behind `~=` all numbers of the version but the
/// last are held, and there must be two or three.
pub proof fn constraints_are_read_by_sign_and_version(
    type_: ReqType,
    a: Seq<char>,
    b: Seq<char>,
    x: Seq<char>,
    d: Seq<char>,
)
    requires
        type_ != ReqType::Caret,
        all_blank(a),
        all_blank(b),
        all_blank(d),
        no_blank_ends(x),
        x.len() > 0,
        x[0] != '=',
    ensures
        parse_constraint(a + (sign(type_) + b + x) + d) == (match parse_version(x) {
            None => None,
            Some(version) => if type_ != ReqType::Tilde {
                Some(Constraint { type_, version })
            } else if split(x, '.').len() == 3 {
                Some(Constraint { type_: ReqType::Tilde, version })
            } else if split(x, '.').len() == 2 {
                Some(Constraint { type_: ReqType::Caret, version })
            } else {
                None
            },
        }),
{
    let inner = sign(type_) + b + x;
    let rest = b + x;
    assert(inner =~= sign(type_) + rest);
    assert(inner.last() == x.last());
    trimming_takes_off_blanks(a, inner, d);
    assert(rest[0] != '=') by {
        if b.len() > 0 {
            assert(rest[0] == b[0]);
        } else {
            assert(rest[0] == x[0]);
        }
    }
    signs_are_read(type_, rest, rest);
    assert(inner.skip(sign(type_).len() as int) =~= rest);
    assert(rest =~= b + x + seq![]);
    trimming_takes_off_blanks(b, x, seq![]);
}

/// A text without a sign in front is no constraint.
pub proof fn no_constraint_is_read_without_a_sign(s: Seq<char>)
    ensures
        operator(trim(s)) is None ==> parse_constraint(s) is None,
{
}

/// Whether trimming leaves nothing: only where the text is blank.
proof fn lemma_trimmed_away(s: Seq<char>)
    ensures
        trim(s).len() == 0 <==> all_blank(s),
{
    let p = |c: char| is_blank(c);
    lemma_span_is(s, p);
    let t = trim_start(s);
    if all_blank(s) {
        trimming_takes_off_blanks(s, seq![], seq![]);
        assert(s + seq![] + seq![] =~= s);
    } else if t.len() > 0 {
        assert(t[0] == s[span(s, p)]);
        lemma_trim_end_keeps(t);
    } else {
        assert forall|i: int| 0 <= i < s.len() implies #[trigger] s[i] == ' ' || s[i] == '\t' by {
            assert(p(s[i]));
        }
    }
}

proof fn lemma_trim_end_keeps(s: Seq<char>)
    requires
        s.len() > 0,
        !is_blank(s[0]),
    ensures
        trim_end(s).len() > 0,
    decreases s.len(),
{
    if is_blank(s.last()) {
        assert(s.len() > 1);
        assert(s.drop_last()[0] == s[0]);
        lemma_trim_end_keeps(s.drop_last());
    }
}

/// A text of pieces with commas between them is read, if at all, as one
/// constraint for each piece: the one that the piece is read as. It is not read
/// only if some piece is no constraint. A blank text stands for no constraints.
pub proof fn each_piece_is_read_as_a_constraint(parts: Seq<Seq<char>>)
    requires
        parts.len() > 0,
        forall|i: int| 0 <= i < parts.len() ==> lacks(#[trigger] parts[i], ','),
    ensures
        if all_blank(joined(parts, ',')) {
            parse_constraints(joined(parts, ',')) == Some(Seq::<Constraint>::empty())
        } else {
            match parse_constraints(joined(parts, ',')) {
                Some(cs) => cs.len() == parts.len() && forall|i: int|
                    0 <= i < parts.len() ==> parse_constraint(#[trigger] parts[i]) == Some(cs[i]),
                None => exists|i: int|
                    0 <= i < parts.len() && parse_constraint(#[trigger] parts[i]) is None,
            }
        },
{
    joined_texts_are_the_pieces(parts, ',');
    lemma_trimmed_away(joined(parts, ','));
}

/// A constraint as a text: its sign and its version in full. Where only the
/// major number is held, the version is written without its patch.
pub open spec fn written_constraint(c: Constraint) -> Seq<char> {
    sign(c.type_) + if c.type_ == ReqType::Caret {
        written_med(c.version)
    } else {
        written(c.version)
    }
}

/// Constraints as a text, with commas between them.
pub open spec fn written_constraints(cs: Seq<Constraint>) -> Seq<char> {
    joined(cs.map_values(|c: Constraint| written_constraint(c)), ',')
}

/// Whether a constraint can be written down: if only the major number is held,
/// the patch must be zero.
pub open spec fn writable(c: Constraint) -> bool {
    c.type_ == ReqType::Caret ==> c.version.patch == 0
}

/// A character of a constraint that is written down.
pub open spec fn is_constraint_char(c: char) -> bool {
    is_digit(c) || c == '.' || c == '=' || c == '!' || c == '<' || c == '>' || c == '~'
}

/// A constraint that is written down is read back as it was.
pub proof fn lemma_constraint_reads_back(c: Constraint)
    requires
        writable(c),
    ensures
        parse_constraint(written_constraint(c)) == Some(c),
        written_constraint(c).len() > 0,
        forall|i: int|
            0 <= i < written_constraint(c).len() ==> is_constraint_char(
                #[trigger] written_constraint(c)[i],
            ),
{
    let x = if c.type_ == ReqType::Caret {
        written_med(c.version)
    } else {
        written(c.version)
    };
    let s = written_constraint(c);
    let none = Seq::<char>::empty();
    let t = if c.type_ == ReqType::Caret {
        ReqType::Tilde
    } else {
        c.type_
    };
    lemma_written_plain(c.version);
    assert(is_digit(x[0]) || x[0] == '.');
    assert(is_digit(x[x.len() - 1]) || x[x.len() - 1] == '.');
    constraints_are_read_by_sign_and_version(t, none, none, x, none);
    assert(none + (sign(t) + none + x) + none =~= s);
    written_reads_back(c.version);
    shorter_forms_read_back(c.version);
    lemma_written_pieces(c.version);
    assert forall|i: int| 0 <= i < s.len() implies is_constraint_char(#[trigger] s[i]) by {
        let n = sign(t).len() as int;
        if i < n {
            assert(s[i] == sign(t)[i]);
        } else {
            assert(s[i] == x[i - n]);
        }
    }
}

/// Constraints that are written down hold no other characters than those of
/// constraints and commas.
pub proof fn lemma_written_constraints(cs: Seq<Constraint>)
    requires
        cs.len() > 0,
        forall|i: int| 0 <= i < cs.len() ==> writable(#[trigger] cs[i]),
    ensures
        written_constraints(cs).len() > 0,
        is_constraint_char(written_constraints(cs)[0]),
        forall|i: int|
            0 <= i < written_constraints(cs).len() ==> is_constraint_char(
                #[trigger] written_constraints(cs)[i],
            ) || written_constraints(cs)[i] == ',',
        is_constraint_char(written_constraints(cs).last()),
    decreases cs.len(),
{
    let f = |c: Constraint| written_constraint(c);
    let s = written_constraints(cs);
    let first = written_constraint(cs[0]);
    assert(writable(cs[0]));
    lemma_constraint_reads_back(cs[0]);
    assert(cs.map_values(f)[0] == first);
    if cs.len() == 1 {
        assert(s == first);
        assert(is_constraint_char(s[s.len() - 1]));
    } else {
        let rest = cs.skip(1);
        let more = written_constraints(rest);
        assert forall|i: int| 0 <= i < rest.len() implies writable(#[trigger] rest[i]) by {
            assert(rest[i] == cs[i + 1]);
        }
        lemma_written_constraints(rest);
        assert(cs.map_values(f).skip(1) =~= rest.map_values(f));
        assert(s == first + seq![','] + more);
        assert(s[0] == first[0]);
        assert(s.last() == more.last());
        assert forall|i: int| 0 <= i < s.len() implies is_constraint_char(#[trigger] s[i]) || s[i]
            == ',' by {
            if i < first.len() {
                assert(s[i] == first[i]);
            } else if i > first.len() {
                assert(s[i] == more[i - first.len() - 1]);
            }
        }
    }
}

/// Constraints that are written down with commas between them are read back as
/// they were: as many, with the same comparison and version at each place.
pub proof fn constraints_read_back(cs: Seq<Constraint>)
    requires
        cs.len() > 0,
        forall|i: int| 0 <= i < cs.len() ==> writable(#[trigger] cs[i]),
    ensures
        parse_constraints(written_constraints(cs)) == Some(cs),
{
    let parts = cs.map_values(|c: Constraint| written_constraint(c));
    assert forall|i: int| 0 <= i < parts.len() implies lacks(#[trigger] parts[i], ',')
        && parse_constraint(parts[i]) == Some(cs[i]) by {
        assert(writable(cs[i]));
        lemma_constraint_reads_back(cs[i]);
    }
    each_piece_is_read_as_a_constraint(parts);
    lemma_written_constraints(cs);
    let s = written_constraints(cs);
    assert(s[0] != ' ' && s[0] != '\t');
    if let Some(read) = parse_constraints(s) {
        assert forall|i: int| 0 <= i < cs.len() implies read[i] == cs[i] by {
            assert(parse_constraint(parts[i]) == Some(read[i]));
        }
        assert(read =~= cs);
    }
}

} // verus!
