//! Requirements: what one package asks of another, and how that is read.

use crate::constraint::{
    constraint_of, constraints_read_back, is_constraint_char, lemma_written_constraints, operator,
    parse_constraints, read_constraints, read_operator, read_version_constraint, sign,
    signs_are_read, writable, written_constraints, Constraint, ReqType,
};
use crate::error::DependencyError;
use crate::text::{
    all_blank, begins, begins_with, chars_of, find, find_char, is_text, lacks, lemma_span,
    lemma_span_is, no_blank_ends, other_than, pieces_make_the_text, span, split, text_of, trim,
    trim_chars, trim_start, trim_start_chars, trimming_takes_off_blanks,
};
use crate::version::{
    lemma_written_pieces, lemma_written_plain, parse_version, written, written_reads_back,
};
use vstd::prelude::*;
use vstd::slice::slice_subrange;

verus! {

/// An operating system.
#[derive(Clone, Copy, Debug, PartialEq, Eq, Structural)]
pub enum Os {
    Linux,
    Windows,
    Mac,
    /// One that is none of the above.
    Other,
}

/// The operating system that a value of `sys_platform` names.
pub open spec fn os_named(s: Seq<char>) -> Os {
    if s == "linux"@ || s == "linux2"@ {
        Os::Linux
    } else if s == "win32"@ || s == "windows"@ {
        Os::Windows
    } else if s == "darwin"@ {
        Os::Mac
    } else {
        Os::Other
    }
}

/// A requirement on a package: its name, the versions that will do, and when
/// the requirement applies.
#[derive(Debug, PartialEq, Eq)]
pub struct Req {
    pub name: String,
    pub constraints: Vec<Constraint>,
    /// The extra for which alone the requirement stands.
    pub extra: Option<String>,
    /// The operating system on which it stands, or on which it does not.
    pub sys_platform: Option<(ReqType, Os)>,
    /// The versions of Python with which it stands.
    pub python_version: Option<Constraint>,
}

/// What a requirement says.
#[verifier::ext_equal]
pub struct ReqView {
    pub name: Seq<char>,
    pub constraints: Seq<Constraint>,
    pub extra: Option<Seq<char>>,
    pub sys_platform: Option<(ReqType, Os)>,
    pub python_version: Option<Constraint>,
}

impl DeepView for Req {
    type V = ReqView;

    open spec fn deep_view(&self) -> ReqView {
        ReqView {
            name: self.name@,
            constraints: self.constraints@,
            extra: self.extra.deep_view(),
            sys_platform: self.sys_platform,
            python_version: self.python_version,
        }
    }
}

impl Clone for Req {
    fn clone(&self) -> (r: Req)
        ensures
            r.deep_view() == self.deep_view(),
    {
        let r = Req {
            name: self.name.clone(),
            constraints: self.constraints.clone(),
            extra: match &self.extra {
                Some(e) => Some(e.clone()),
                None => None,
            },
            sys_platform: self.sys_platform,
            python_version: self.python_version,
        };
        proof {
            assert(r.constraints@ =~= self.constraints@);
        }
        r
    }
}

/// A character that may stand in the name of a package.
pub open spec fn is_name_char(c: char) -> bool {
    ||| 'a' <= c && c <= 'z'
    ||| 'A' <= c && c <= 'Z'
    ||| '0' <= c && c <= '9'
    ||| c == '-'
    ||| c == '_'
    ||| c == '.'
}

/// A text that can be the name of a package.
pub open spec fn is_name(s: Seq<char>) -> bool {
    s.len() > 0 && forall|i: int| 0 <= i < s.len() ==> is_name_char(#[trigger] s[i])
}

/// Being a character of a name.
pub open spec fn name_char() -> spec_fn(char) -> bool {
    |c: char| is_name_char(c)
}

/// Being no quotation mark.
pub open spec fn unquoted() -> spec_fn(char) -> bool {
    |c: char| c != '\'' && c != '"'
}

/// What a condition in a marker is about.
#[derive(Clone, Copy, Debug, PartialEq, Eq, Structural)]
pub enum Variable {
    Extra,
    SysPlatform,
    PythonVersion,
}

/// The variable that stands at the front of a text, and its length.
pub open spec fn variable(s: Seq<char>) -> Option<(Variable, int)> {
    if begins(s, "extra"@) {
        Some((Variable::Extra, "extra"@.len() as int))
    } else if begins(s, "sys_platform"@) {
        Some((Variable::SysPlatform, "sys_platform"@.len() as int))
    } else if begins(s, "python_version"@) {
        Some((Variable::PythonVersion, "python_version"@.len() as int))
    } else {
        None
    }
}

/// A condition in a marker, and the text behind it.
pub struct Condition {
    pub variable: Variable,
    pub type_: ReqType,
    pub value: Seq<char>,
    pub rest: Seq<char>,
}

/// The condition that stands at the front of a text: a variable, a comparison
/// and a value in quotation marks.
pub open spec fn condition(s: Seq<char>) -> Option<Condition> {
    match variable(s) {
        None => None,
        Some((variable, n)) => {
            let a = trim_start(s.skip(n));
            match operator(a) {
                None => None,
                Some((type_, m)) => {
                    let b = trim_start(a.skip(m));
                    let c = b.skip(1);
                    let k = span(c, unquoted());
                    if b.len() > 0 && !unquoted()(b[0]) && k < c.len() {
                        Some(
                            Condition { variable, type_, value: c.take(k), rest: c.skip(k + 1) },
                        )
                    } else {
                        None
                    }
                },
            }
        },
    }
}

/// When a requirement stands.
pub struct Marker {
    pub extra: Option<Seq<char>>,
    pub sys_platform: Option<(ReqType, Os)>,
    pub python_version: Option<Constraint>,
}

/// A marker with one more condition, if the condition has a meaning.
pub open spec fn with_condition(m: Marker, c: Condition) -> Option<Marker> {
    match c.variable {
        Variable::Extra => if c.type_ == ReqType::Exact {
            Some(Marker { extra: Some(c.value), ..m })
        } else {
            None
        },
        Variable::SysPlatform => Some(
            Marker { sys_platform: Some((c.type_, os_named(c.value))), ..m },
        ),
        Variable::PythonVersion => match constraint_of(c.type_, c.value) {
            Some(v) => Some(Marker { python_version: Some(v), ..m }),
            None => None,
        },
    }
}

/// A marker with the conditions found in a text. What stands between them is
/// passed over, and of two conditions on one variable the later one counts.
pub open spec fn parse_marker(s: Seq<char>, m: Marker) -> Option<Marker>
    decreases s.len(),
{
    if s.len() == 0 {
        Some(m)
    } else {
        match condition(s) {
            None => parse_marker(s.skip(1), m),
            Some(c) => match with_condition(m, c) {
                None => None,
                Some(m2) => {
                    proof {
                        lemma_condition_shorter(s);
                    }
                    parse_marker(c.rest, m2)
                },
            },
        }
    }
}

/// Behind a condition the text is shorter.
pub proof fn lemma_condition_shorter(s: Seq<char>)
    ensures
        condition(s) matches Some(c) ==> c.rest.len() < s.len(),
{
    if let Some((_, n)) = variable(s) {
        lemma_trim_shorter(s.skip(n));
        let a = trim_start(s.skip(n));
        if let Some((_, m)) = operator(a) {
            lemma_trim_shorter(a.skip(m));
            let b = trim_start(a.skip(m));
            lemma_span_is(b.skip(1), unquoted());
        }
    }
}

proof fn lemma_trim_shorter(s: Seq<char>)
    ensures
        trim_start(s).len() <= s.len(),
{
    lemma_span_is(s, |c: char| crate::text::is_blank(c));
}

/// The constraints within brackets, or the text itself where it has none.
pub open spec fn unbracketed(s: Seq<char>) -> Seq<char> {
    if s.len() >= 2 && s[0] == '(' && s.last() == ')' {
        s.subrange(1, s.len() - 1)
    } else {
        s
    }
}

/// The requirement that a text stands for: the name of a package, its
/// constraints, and behind a semicolon a marker.
pub open spec fn parse_req(s: Seq<char>) -> Option<ReqView> {
    let n = span(s, name_char());
    let tail = s.skip(n);
    let k = find(tail, ';');
    let constraints = parse_constraints(unbracketed(trim(tail.take(k))));
    let none = Marker { extra: None, sys_platform: None, python_version: None };
    let marker = if k < tail.len() { parse_marker(tail.skip(k + 1), none) } else { Some(none) };
    if n == 0 || constraints is None || marker is None {
        None
    } else {
        Some(
            ReqView {
                name: s.take(n),
                constraints: constraints->0,
                extra: marker->0.extra,
                sys_platform: marker->0.sys_platform,
                python_version: marker->0.python_version,
            },
        )
    }
}

/// The operating system that a value of `sys_platform` names.
pub fn read_os(s: &[char]) -> (os: Os)
    ensures
        os == os_named(s@),
{
    if is_text(s, "linux") || is_text(s, "linux2") {
        Os::Linux
    } else if is_text(s, "win32") || is_text(s, "windows") {
        Os::Windows
    } else if is_text(s, "darwin") {
        Os::Mac
    } else {
        Os::Other
    }
}

fn read_variable(s: &[char]) -> (r: Option<(Variable, usize)>)
    ensures
        match r {
            Some((v, n)) => variable(s@) == Some((v, n as int)) && n <= s@.len(),
            None => variable(s@) is None,
        },
{
    if begins_with(s, "extra") {
        Some((Variable::Extra, chars_of("extra").len()))
    } else if begins_with(s, "sys_platform") {
        Some((Variable::SysPlatform, chars_of("sys_platform").len()))
    } else if begins_with(s, "python_version") {
        Some((Variable::PythonVersion, chars_of("python_version").len()))
    } else {
        None
    }
}

/// What is behind the first `n` characters.
fn behind<'a>(s: &'a [char], n: usize) -> (r: &'a [char])
    requires
        n <= s@.len(),
    ensures
        r@ == s@.skip(n as int),
{
    let r = slice_subrange(s, n, s.len());
    proof {
        assert(r@ =~= s@.skip(n as int));
    }
    r
}

/// The first `n` characters.
fn front<'a>(s: &'a [char], n: usize) -> (r: &'a [char])
    requires
        n <= s@.len(),
    ensures
        r@ == s@.take(n as int),
{
    let r = slice_subrange(s, 0, n);
    proof {
        assert(r@ =~= s@.take(n as int));
    }
    r
}

/// Variable, comparison, value, and the text behind them.
fn read_condition<'a>(s: &'a [char]) -> (r: Option<(Variable, ReqType, &'a [char], &'a [char])>)
    ensures
        match r {
            Some((variable, type_, value, rest)) => condition(s@) == Some(
                Condition { variable, type_, value: value@, rest: rest@ },
            ),
            None => condition(s@) is None,
        },
{
    let (variable, n) = match read_variable(s) {
        Some(v) => v,
        None => return None,
    };
    let a = trim_start_chars(behind(s, n));
    let (type_, m) = match read_operator(a) {
        Some(t) => t,
        None => return None,
    };
    let b = trim_start_chars(behind(a, m));
    if b.len() == 0 || (b[0] != '\'' && b[0] != '"') {
        return None;
    }
    let c = behind(b, 1);
    let mut k: usize = 0;
    while k < c.len() && c[k] != '\'' && c[k] != '"'
        invariant
            k <= c@.len(),
            forall|i: int| 0 <= i < k ==> unquoted()(#[trigger] c@[i]),
        decreases c@.len() - k,
    {
        k += 1;
    }
    proof {
        lemma_span(c@, unquoted(), k as int);
    }
    if k < c.len() {
        Some((variable, type_, front(c, k), behind(c, k + 1)))
    } else {
        None
    }
}

/// Reads a marker into the parts of `req` that say when it stands. Tells
/// whether the marker has a meaning.
fn read_marker(s: &[char], given: Req) -> (r: Option<Req>)
    ensures
        match parse_marker(
            s@,
            Marker {
                extra: given.extra.deep_view(),
                sys_platform: given.sys_platform,
                python_version: given.python_version,
            },
        ) {
            Some(m) => r matches Some(q) && q.deep_view() == (ReqView {
                extra: m.extra,
                sys_platform: m.sys_platform,
                python_version: m.python_version,
                ..given.deep_view()
            }),
            None => r is None,
        },
{
    let ghost start = given.deep_view();
    let mut req = given;
    let mut rest: &[char] = s;
    while rest.len() > 0
        invariant
            req.name@ == start.name,
            req.constraints@ == start.constraints,
            start == given.deep_view(),
            parse_marker(
                s@,
                Marker {
                    extra: start.extra,
                    sys_platform: start.sys_platform,
                    python_version: start.python_version,
                },
            ) == parse_marker(
                rest@,
                Marker {
                    extra: req.extra.deep_view(),
                    sys_platform: req.sys_platform,
                    python_version: req.python_version,
                },
            ),
        decreases rest@.len(),
    {
        proof {
            lemma_condition_shorter(rest@);
        }
        match read_condition(rest) {
            None => {
                rest = behind(rest, 1);
            },
            Some((variable, type_, value, behind_it)) => {
                match variable {
                    Variable::Extra => {
                        if type_ != ReqType::Exact {
                            return None;
                        }
                        req.extra = Some(text_of(value));
                    },
                    Variable::SysPlatform => {
                        req.sys_platform = Some((type_, read_os(value)));
                    },
                    Variable::PythonVersion => {
                        match read_version_constraint(type_, value) {
                            Some(c) => {
                                req.python_version = Some(c);
                            },
                            None => {
                                return None;
                            },
                        }
                    },
                }
                rest = behind_it;
            },
        }
    }
    Some(req)
}

impl Req {
    /// A requirement that always stands.
    pub fn new(name: String, constraints: Vec<Constraint>) -> (r: Req)
        ensures
            r.deep_view() == (ReqView {
                name: name@,
                constraints: constraints@,
                extra: None,
                sys_platform: None,
                python_version: None,
            }),
    {
        Req { name, constraints, extra: None, sys_platform: None, python_version: None }
    }

    /// Reads a requirement as the package index writes it.
    pub fn from_str(s: &str) -> (r: Result<Req, DependencyError>)
        ensures
            match r {
                Ok(q) => parse_req(s@) == Some(q.deep_view()),
                Err(e) => parse_req(s@) is None && e.details@
                    == "Problem parsing requirement: "@ + s@,
            },
    {
        match Req::from_text(s) {
            Some(q) => Ok(q),
            None => Err(DependencyError::new("Problem parsing requirement: ", s)),
        }
    }

    fn from_text(s: &str) -> (r: Option<Req>)
        ensures
            match r {
                Some(q) => parse_req(s@) == Some(q.deep_view()),
                None => parse_req(s@) is None,
            },
    {
        let chars = chars_of(s);
        let s = chars.as_slice();
        let mut n: usize = 0;
        while n < s.len() && named(s[n])
            invariant
                n <= s@.len(),
                forall|i: int| 0 <= i < n ==> name_char()(#[trigger] s@[i]),
            decreases s@.len() - n,
        {
            n += 1;
        }
        proof {
            lemma_span(s@, name_char(), n as int);
        }
        if n == 0 {
            return None;
        }
        let tail = behind(s, n);
        let k = find_char(tail, ';');
        let part = trim_chars(front(tail, k));
        let inner = if part.len() >= 2 && part[0] == '(' && part[part.len() - 1] == ')' {
            slice_subrange(part, 1, part.len() - 1)
        } else {
            part
        };
        let constraints = match read_constraints(inner) {
            Some(c) => c,
            None => return None,
        };
        let req = Req::new(text_of(front(s, n)), constraints);
        if k < tail.len() {
            read_marker(behind(tail, k + 1), req)
        } else {
            Some(req)
        }
    }

    /// Whether two requirements say the same.
    pub fn same(&self, other: &Req) -> (b: bool)
        ensures
            b == (self.deep_view() == other.deep_view()),
    {
        if self.name != other.name || self.constraints.len() != other.constraints.len() {
            return false;
        }
        let mut i: usize = 0;
        while i < self.constraints.len()
            invariant
                i <= self.constraints@.len() == other.constraints@.len(),
                forall|j: int| 0 <= j < i ==> self.constraints@[j] == other.constraints@[j],
            decreases self.constraints@.len() - i,
        {
            if self.constraints[i] != other.constraints[i] {
                return false;
            }
            i += 1;
        }
        proof {
            assert(self.constraints@ =~= other.constraints@);
        }
        let extra = match (&self.extra, &other.extra) {
            (Some(a), Some(b)) => *a == *b,
            (None, None) => true,
            _ => false,
        };
        let sys_platform = match (self.sys_platform, other.sys_platform) {
            (Some((t, a)), Some((u, b))) => t == u && a == b,
            (None, None) => true,
            _ => false,
        };
        let python_version = match (self.python_version, other.python_version) {
            (Some(a), Some(b)) => a == b,
            (None, None) => true,
            _ => false,
        };
        extra && sys_platform && python_version
    }
}

fn named(c: char) -> (b: bool)
    ensures
        b == is_name_char(c),
{
    ('a' <= c && c <= 'z') || ('A' <= c && c <= 'Z') || ('0' <= c && c <= '9') || c == '-' || c
        == '_' || c == '.'
}

/// A letter, a digit, a hyphen, an underscore or a dot.
pub open spec fn in_name(c: char) -> bool {
    ||| 'a' <= c && c <= 'z'
    ||| 'A' <= c && c <= 'Z'
    ||| '0' <= c && c <= '9'
    ||| c == '-' || c == '_' || c == '.'
}

/// A text of one or more letters, digits, hyphens, underscores and dots.
pub open spec fn package_name(s: Seq<char>) -> bool {
    s.len() > 0 && forall|i: int| 0 <= i < s.len() ==> in_name(#[trigger] s[i])
}

/// Texts that can be names are those of letters, digits, hyphens, underscores
/// and dots.
pub proof fn names_are_made_of_letters_and_digits(s: Seq<char>)
    ensures
        is_name(s) <==> package_name(s),
{
    if is_name(s) {
        assert forall|i: int| 0 <= i < s.len() implies in_name(#[trigger] s[i]) by {
            assert(is_name_char(s[i]));
        }
    }
    if package_name(s) {
        assert forall|i: int| 0 <= i < s.len() implies is_name_char(#[trigger] s[i]) by {
            assert(in_name(s[i]));
        }
    }
}

/// What a requirement says that always stands.
pub open spec fn bare(name: Seq<char>, constraints: Seq<Constraint>) -> ReqView {
    ReqView { name, constraints, extra: None, sys_platform: None, python_version: None }
}

/// Where the name ends, and what is behind it.
proof fn lemma_name_ends(name: Seq<char>, tail: Seq<char>)
    requires
        package_name(name),
        tail.len() > 0 ==> !in_name(tail[0]),
    ensures
        span(name + tail, name_char()) == name.len(),
        (name + tail).take(name.len() as int) == name,
        (name + tail).skip(name.len() as int) == tail,
{
    let s = name + tail;
    assert forall|i: int| 0 <= i < name.len() implies name_char()(#[trigger] s[i]) by {
        assert(s[i] == name[i]);
        assert(in_name(name[i]));
    }
    if tail.len() > 0 {
        assert(s[name.len() as int] == tail[0]);
    }
    lemma_span(s, name_char(), name.len() as int);
    assert(s.take(name.len() as int) =~= name);
    assert(s.skip(name.len() as int) =~= tail);
}

proof fn lemma_no_marker(name: Seq<char>, tail: Seq<char>)
    requires
        package_name(name),
        tail.len() > 0 ==> !in_name(tail[0]),
        lacks(tail, ';'),
    ensures
        parse_req(name + tail) == (match parse_constraints(unbracketed(trim(tail))) {
            Some(cs) => Some(bare(name, cs)),
            None => None,
        }),
{
    lemma_name_ends(name, tail);
    assert forall|i: int| 0 <= i < tail.len() implies other_than(';')(#[trigger] tail[i]) by {}
    lemma_span(tail, other_than(';'), tail.len() as int);
    assert(tail.take(tail.len() as int) =~= tail);
}

/// A requirement is the name of a package and, in brackets behind it, its
/// constraints; spaces and tabs around the brackets do not matter. It is read
/// if the constraints are, with just these.
pub proof fn requirements_are_read_with_brackets(
    name: Seq<char>,
    a: Seq<char>,
    inner: Seq<char>,
    d: Seq<char>,
)
    requires
        package_name(name),
        all_blank(a),
        all_blank(d),
        lacks(inner, ';'),
    ensures
        parse_req(name + (a + (seq!['('] + inner + seq![')']) + d)) == (match parse_constraints(
            inner,
        ) {
            Some(cs) => Some(bare(name, cs)),
            None => None,
        }),
{
    let part = seq!['('] + inner + seq![')'];
    let tail = a + part + d;
    assert forall|i: int| 0 <= i < tail.len() implies #[trigger] tail[i] != ';' by {
        if i < a.len() {
            assert(tail[i] == a[i]);
        } else if i < a.len() + part.len() {
            let j = i - a.len();
            assert(tail[i] == part[j]);
            if 0 < j && j <= inner.len() {
                assert(part[j] == inner[j - 1]);
            }
        } else {
            assert(tail[i] == d[i - a.len() - part.len()]);
        }
    }
    assert(!in_name(tail[0])) by {
        if a.len() > 0 {
            assert(tail[0] == a[0]);
        } else {
            assert(tail[0] == part[0]);
        }
    }
    trimming_takes_off_blanks(a, part, d);
    assert(unbracketed(part) =~= inner);
    lemma_no_marker(name, tail);
}

/// The constraints may also stand behind the name without brackets, or be left
/// out. One bracket alone is no part of a constraint.
pub proof fn requirements_are_read_without_brackets(
    name: Seq<char>,
    a: Seq<char>,
    inner: Seq<char>,
    d: Seq<char>,
)
    requires
        package_name(name),
        all_blank(a),
        all_blank(d),
        no_blank_ends(inner),
        lacks(inner, ';'),
        inner.len() > 0 ==> !in_name(inner[0]),
        !(inner.len() > 1 && inner[0] == '(' && inner.last() == ')'),
    ensures
        parse_req(name + (a + inner + d)) == (match parse_constraints(inner) {
            Some(cs) => Some(bare(name, cs)),
            None => None,
        }),
        inner.len() == 0 ==> parse_req(name + (a + inner + d)) == Some(bare(name, seq![])),
{
    let tail = a + inner + d;
    assert forall|i: int| 0 <= i < tail.len() implies #[trigger] tail[i] != ';' by {
        if i < a.len() {
            assert(tail[i] == a[i]);
        } else if i < a.len() + inner.len() {
            assert(tail[i] == inner[i - a.len()]);
        } else {
            assert(tail[i] == d[i - a.len() - inner.len()]);
        }
    }
    if tail.len() > 0 {
        assert(!in_name(tail[0])) by {
            if a.len() > 0 {
                assert(tail[0] == a[0]);
            } else if inner.len() > 0 {
                assert(tail[0] == inner[0]);
            } else {
                assert(tail[0] == d[0]);
            }
        }
    }
    trimming_takes_off_blanks(a, inner, d);
    lemma_no_marker(name, tail);
    if inner.len() == 0 {
        let none = Seq::<char>::empty();
        assert(inner =~= none);
        trimming_takes_off_blanks(none, none, none);
        assert(none + none + none =~= none);
    }
}

/// Behind a semicolon stands a marker. It adds to the requirement in front when
/// that stands, and takes nothing away. Without the one or the other nothing is
/// read.
pub proof fn markers_stand_behind_a_semicolon(t: Seq<char>, marker: Seq<char>)
    requires
        lacks(t, ';'),
    ensures
        parse_req(t + seq![';'] + marker) == (match (
            parse_req(t),
            parse_marker(
                marker,
                Marker { extra: None, sys_platform: None, python_version: None },
            ),
        ) {
            (Some(r), Some(m)) => Some(
                ReqView {
                    name: r.name,
                    constraints: r.constraints,
                    extra: m.extra,
                    sys_platform: m.sys_platform,
                    python_version: m.python_version,
                },
            ),
            _ => None,
        }),
        parse_req(t) matches Some(r) ==> r.extra is None && r.sys_platform is None
            && r.python_version is None,
{
    let s = t + seq![';'] + marker;
    let n = span(t, name_char());
    lemma_span_is(t, name_char());
    assert forall|i: int| 0 <= i < n implies name_char()(#[trigger] s[i]) by {
        assert(s[i] == t[i]);
    }
    if n < t.len() {
        assert(s[n] == t[n]);
    }
    lemma_span(s, name_char(), n);
    let (tail, whole) = (t.skip(n), s.skip(n));
    assert forall|i: int| 0 <= i < tail.len() implies other_than(';')(#[trigger] tail[i])
        && other_than(';')(whole[i]) by {
        assert(tail[i] == t[n + i]);
        assert(whole[i] == t[n + i]);
    }
    lemma_span(tail, other_than(';'), tail.len() as int);
    assert(whole[tail.len() as int] == ';');
    lemma_span(whole, other_than(';'), tail.len() as int);
    assert(tail.take(tail.len() as int) =~= tail);
    assert(whole.take(tail.len() as int) =~= tail);
    assert(whole.skip((tail.len() + 1) as int) =~= marker);
    assert(s.take(n) =~= t.take(n));
}

/// Whatever is read as a requirement begins with its name, and the name goes as
/// far as letters, digits, hyphens, underscores and dots do.
pub proof fn requirements_begin_with_their_name(s: Seq<char>)
    ensures
        parse_req(s) matches Some(r) ==> {
            &&& package_name(r.name)
            &&& r.name.len() <= s.len()
            &&& s.take(r.name.len() as int) == r.name
            &&& r.name.len() < s.len() ==> !in_name(s[r.name.len() as int])
        },
{
    lemma_span_is(s, name_char());
    if let Some(r) = parse_req(s) {
        assert forall|i: int| 0 <= i < r.name.len() implies in_name(#[trigger] r.name[i]) by {
            assert(name_char()(s[i]));
        }
    }
}

/// The word for what a condition is about.
pub open spec fn word(v: Variable) -> Seq<char> {
    match v {
        Variable::Extra => "extra"@,
        Variable::SysPlatform => "sys_platform"@,
        Variable::PythonVersion => "python_version"@,
    }
}

/// Each word is read as what it stands for.
proof fn lemma_word_is_read(v: Variable, x: Seq<char>)
    ensures
        variable(word(v) + x) == Some((v, word(v).len() as int)),
        (word(v) + x).skip(word(v).len() as int) == x,
        word(v).len() > 0,
{
    reveal_strlit("extra");
    reveal_strlit("sys_platform");
    reveal_strlit("python_version");
    let s = word(v) + x;
    assert(s.take(word(v).len() as int) =~= word(v));
    assert(s.skip(word(v).len() as int) =~= x);
    assert(s[0] == word(v)[0]);
    if begins(s, "extra"@) {
        assert(s.take("extra"@.len() as int)[0] == 'e');
        assert(s[0] == 'e');
    }
    if begins(s, "sys_platform"@) {
        assert(s.take("sys_platform"@.len() as int)[0] == 's');
        assert(s[0] == 's');
    }
}

/// A condition is a word, a sign and a value in quotation marks, with spaces
/// and tabs between them or none. `extra` must be compared by `==`, and the
/// value is the extra; the value of `sys_platform` names an operating system;
/// that of `python_version` is a version, which is compared as in a constraint.
/// What is behind the condition is read in the same way.
pub proof fn conditions_are_read_in_turn(
    v: Variable,
    a: Seq<char>,
    type_: ReqType,
    b: Seq<char>,
    open: char,
    value: Seq<char>,
    close: char,
    rest: Seq<char>,
    m: Marker,
)
    requires
        type_ != ReqType::Caret,
        all_blank(a),
        all_blank(b),
        open == '\'' || open == '"',
        close == '\'' || close == '"',
        lacks(value, '\''),
        lacks(value, '"'),
    ensures
        parse_marker(
            word(v) + (a + (sign(type_) + (b + (seq![open] + (value + (seq![close] + rest)))))),
            m,
        ) == (match v {
            Variable::Extra => if type_ == ReqType::Exact {
                parse_marker(rest, Marker { extra: Some(value), ..m })
            } else {
                None
            },
            Variable::SysPlatform => parse_marker(
                rest,
                Marker { sys_platform: Some((type_, os_named(value))), ..m },
            ),
            Variable::PythonVersion => match parse_version(value) {
                None => None,
                Some(version) => if type_ == ReqType::Tilde && split(value, '.').len() == 1 {
                    None
                } else {
                    parse_marker(
                        rest,
                        Marker {
                            python_version: Some(
                                Constraint {
                                    type_: if type_ == ReqType::Tilde && split(value, '.').len()
                                        == 2 {
                                        ReqType::Caret
                                    } else {
                                        type_
                                    },
                                    version,
                                },
                            ),
                            ..m
                        },
                    )
                },
            },
        }),
{
    let quoted = value + (seq![close] + rest);
    let x4 = seq![open] + quoted;
    let x3 = b + x4;
    let x2 = sign(type_) + x3;
    let x1 = a + x2;
    let s = word(v) + x1;
    lemma_word_is_read(v, x1);
    lemma_trim_front(a, x2);
    assert(x3[0] != '=') by {
        if b.len() > 0 {
            assert(x3[0] == b[0]);
        } else {
            assert(x3[0] == x4[0]);
        }
    }
    signs_are_read(type_, x3, x3);
    assert(x2.skip(sign(type_).len() as int) =~= x3);
    lemma_trim_front(b, x4);
    assert(x4.skip(1) =~= quoted);
    let k = value.len() as int;
    assert forall|i: int| 0 <= i < k implies unquoted()(#[trigger] quoted[i]) by {
        assert(quoted[i] == value[i]);
    }
    assert(quoted[k] == close);
    lemma_span(quoted, unquoted(), k);
    assert(quoted.take(k) =~= value);
    assert(quoted.skip(k + 1) =~= rest);
    let c = Condition { variable: v, type_, value, rest };
    assert(condition(s) == Some(c));
    assert(s.len() > 0);
    pieces_make_the_text(value, '.');
}

proof fn lemma_trim_front(a: Seq<char>, x: Seq<char>)
    requires
        all_blank(a),
        x.len() > 0,
        x[0] != ' ' && x[0] != '\t',
    ensures
        trim_start(a + x) == x,
{
    let p = |c: char| crate::text::is_blank(c);
    let s = a + x;
    assert forall|i: int| 0 <= i < a.len() implies p(#[trigger] s[i]) by {
        assert(s[i] == a[i]);
    }
    assert(s[a.len() as int] == x[0]);
    lemma_span(s, p, a.len() as int);
    assert(s.skip(a.len() as int) =~= x);
}

/// In a marker, what does not begin with one of the words is passed over, and a
/// text without a quotation mark holds no condition.
pub proof fn other_text_is_passed_over(s: Seq<char>, m: Marker)
    ensures
        s.len() > 0 && !begins(s, "extra"@) && !begins(s, "sys_platform"@) && !begins(
            s,
            "python_version"@,
        ) ==> parse_marker(s, m) == parse_marker(s.skip(1), m),
        lacks(s, '\'') && lacks(s, '"') ==> parse_marker(s, m) == Some(m),
    decreases s.len(),
{
    if s.len() > 0 && lacks(s, '\'') && lacks(s, '"') {
        let rest = s.skip(1);
        assert forall|i: int| 0 <= i < rest.len() implies #[trigger] rest[i] != '\'' && rest[i]
            != '"' by {
            assert(rest[i] == s[i + 1]);
        }
        other_text_is_passed_over(rest, m);
        if let Some((_, n)) = variable(s) {
            let t = s.skip(n);
            lemma_trim_shorter(t);
            let a = trim_start(t);
            if let Some((_, k)) = operator(a) {
                let u = a.skip(k);
                lemma_trim_shorter(u);
                let b = trim_start(u);
                if b.len() > 0 {
                    lemma_from_behind(t);
                    lemma_from_behind(u);
                    assert(b[0] == u[u.len() - b.len()]);
                    assert(u[u.len() - b.len()] == a[k + u.len() - b.len()]);
                    let j = k + u.len() - b.len();
                    assert(a[j] == t[t.len() - a.len() + j]);
                    assert(t[t.len() - a.len() + j] == s[n + t.len() - a.len() + j]);
                }
            }
        }
        assert(condition(s) is None);
    }
}

proof fn lemma_from_behind(s: Seq<char>)
    ensures
        trim_start(s).len() <= s.len(),
        forall|i: int|
            0 <= i < trim_start(s).len() ==> #[trigger] trim_start(s)[i] == s[s.len() - trim_start(
                s,
            ).len() + i],
{
    lemma_trim_shorter(s);
    lemma_span_is(s, |c: char| crate::text::is_blank(c));
}

/// `linux` and `linux2` name Linux, `win32` and `windows` name Windows, and
/// `darwin` names macOS; anything else names none of them.
pub proof fn platforms_are_named(s: Seq<char>)
    ensures
        os_named(s) == Os::Linux <==> s == "linux"@ || s == "linux2"@,
        os_named(s) == Os::Windows <==> s == "win32"@ || s == "windows"@,
        os_named(s) == Os::Mac <==> s == "darwin"@,
{
    reveal_strlit("linux");
    reveal_strlit("linux2");
    reveal_strlit("win32");
    reveal_strlit("windows");
    reveal_strlit("darwin");
    assert("linux"@[0] == 'l' && "linux2"@[0] == 'l');
    assert("win32"@[0] == 'w' && "windows"@[0] == 'w');
    assert("darwin"@[0] == 'd');
}

/// A requirement on a package with any constraints, written with the
/// constraints in brackets, is read back as it was.
pub proof fn requirement_reads_back(name: Seq<char>, cs: Seq<Constraint>)
    requires
        package_name(name),
        cs.len() > 0,
        forall|i: int| 0 <= i < cs.len() ==> writable(#[trigger] cs[i]),
    ensures
        parse_req(name + (seq![' '] + (seq!['('] + written_constraints(cs) + seq![')']) + seq![]))
            == Some(bare(name, cs)),
{
    constraints_read_back(cs);
    lemma_written_constraints(cs);
    assert forall|i: int| 0 <= i < written_constraints(cs).len() implies #[trigger]
        written_constraints(cs)[i] != ';' by {
        assert(is_constraint_char(written_constraints(cs)[i]) || written_constraints(cs)[i]
            == ',');
    }
    requirements_are_read_with_brackets(name, seq![' '], written_constraints(cs), seq![]);
}

/// A requirement with a marker on the version of Python, written with the
/// version in full, is read back as it was.
pub proof fn python_marker_reads_back(t: Seq<char>, c: Constraint)
    requires
        lacks(t, ';'),
        parse_req(t) is Some,
        c.type_ != ReqType::Caret,
    ensures
        parse_req(
            t + seq![';'] + (seq![' '] + ("python_version"@ + (seq![' '] + (sign(c.type_) + (seq![
                ' ',
            ] + (seq!['\''] + (written(c.version) + (seq!['\''] + seq![])))))))),
        ) == Some(ReqView { python_version: Some(c), ..parse_req(t)->0 }),
{
    let none = Marker { extra: None, sys_platform: None, python_version: None };
    let blank = seq![' '];
    let value = written(c.version);
    let rest = Seq::<char>::empty();
    let cond = "python_version"@ + (blank + (sign(c.type_) + (blank + (seq!['\''] + (value + (seq![
        '\'',
    ] + rest))))));
    let marker = blank + cond;
    lemma_written_plain(c.version);
    assert forall|i: int| 0 <= i < value.len() implies #[trigger] value[i] != '\'' && value[i]
        != '"' by {
        assert(crate::text::is_digit(value[i]) || value[i] == '.');
    }
    conditions_are_read_in_turn(
        Variable::PythonVersion,
        blank,
        c.type_,
        blank,
        '\'',
        value,
        '\'',
        rest,
        none,
    );
    written_reads_back(c.version);
    lemma_written_pieces(c.version);
    other_text_is_passed_over(rest, Marker { python_version: Some(c), ..none });
    reveal_strlit("extra");
    reveal_strlit("sys_platform");
    reveal_strlit("python_version");
    assert(marker[0] == ' ');
    if begins(marker, "extra"@) {
        assert(marker.take("extra"@.len() as int)[0] == 'e');
    }
    if begins(marker, "sys_platform"@) {
        assert(marker.take("sys_platform"@.len() as int)[0] == 's');
    }
    if begins(marker, "python_version"@) {
        assert(marker.take("python_version"@.len() as int)[0] == 'p');
    }
    other_text_is_passed_over(marker, none);
    assert(marker.skip(1) =~= cond);
    markers_stand_behind_a_semicolon(t, marker);
}

/// A word that no sign follows, or a sign that no value between quotation marks
/// follows, is no condition and is passed over.
pub proof fn words_without_a_condition_are_passed_over(
    v: Variable,
    a: Seq<char>,
    type_: ReqType,
    b: Seq<char>,
    x: Seq<char>,
    m: Marker,
)
    requires
        type_ != ReqType::Caret,
        all_blank(a),
        all_blank(b),
        x.len() > 0,
        x[0] != ' ' && x[0] != '\t' && x[0] != '=',
    ensures
        operator(x) is None ==> parse_marker(word(v) + (a + x), m) == parse_marker(
            (word(v) + (a + x)).skip(1),
            m,
        ),
        x[0] != '\'' && x[0] != '"' || lacks(x.skip(1), '\'') && lacks(x.skip(1), '"')
            ==> parse_marker(word(v) + (a + (sign(type_) + (b + x))), m) == parse_marker(
            (word(v) + (a + (sign(type_) + (b + x)))).skip(1),
            m,
        ),
{
    lemma_word_is_read(v, a + x);
    lemma_trim_front(a, x);
    let rest = b + x;
    let y = sign(type_) + rest;
    lemma_word_is_read(v, a + y);
    lemma_trim_front(a, y);
    assert(rest[0] != '=') by {
        if b.len() > 0 {
            assert(rest[0] == b[0]);
        } else {
            assert(rest[0] == x[0]);
        }
    }
    signs_are_read(type_, rest, rest);
    assert(y.skip(sign(type_).len() as int) =~= rest);
    lemma_trim_front(b, x);
    if lacks(x.skip(1), '\'') && lacks(x.skip(1), '"') {
        lemma_span(x.skip(1), unquoted(), x.len() - 1);
    }
}

/// What a requirement says is all that it holds.
pub proof fn requirements_are_seen_whole(r: Req)
    ensures
        r.deep_view().name == r.name@,
        r.deep_view().constraints == r.constraints@,
        match r.extra {
            Some(e) => r.deep_view().extra == Some(e@),
            None => r.deep_view().extra is None,
        },
        r.deep_view().sys_platform == r.sys_platform,
        r.deep_view().python_version == r.python_version,
{
}

} // verus!
