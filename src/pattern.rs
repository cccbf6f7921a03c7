//! Path templates: their syntax, their compiled form, and how a compiled
//! template matches a request path and captures its variables.
//!
//! A template is split on '/' after its trailing slashes are removed. Each
//! piece is a wildcard (`*`), a variable (`:name` or `{name}`) or a literal.
//! The model of a compiled template is the sequence of those pieces.

use vstd::prelude::*;
use vstd::string::*;

use crate::response::ConfigError;
use crate::text::{
    normalize,
    remove_trailling_slash,
    split_route,
    split_segments,
    strings_view,
};

verus! {

/// Letters, digits, '-' and '_': the characters of names and wildcard matches.
pub open spec fn is_name_char(c: char) -> bool {
    ('a' <= c && c <= 'z') || ('A' <= c && c <= 'Z') || ('0' <= c && c <= '9') || c == '-'
        || c == '_'
}

/// Every character of `s` is a name character.
pub open spec fn is_name_text(s: Seq<char>) -> bool {
    forall|i: int| 0 <= i < s.len() ==> is_name_char(#[trigger] s[i])
}

/// A non-empty run of name characters.
pub open spec fn is_valid_name(s: Seq<char>) -> bool {
    s.len() > 0 && is_name_text(s)
}

/// The characters that only markers may hold.
pub open spec fn is_marker_char(c: char) -> bool {
    c == ':' || c == '*' || c == '{' || c == '}'
}

pub open spec fn is_wildcard_text(t: Seq<char>) -> bool {
    t.len() == 1 && t[0] == '*'
}

pub open spec fn is_variable_text(t: Seq<char>) -> bool {
    (t.len() >= 1 && t[0] == ':') || (t.len() >= 2 && t[0] == '{' && t.last() == '}')
}

/// The name that a variable piece declares.
pub open spec fn name_of(t: Seq<char>) -> Seq<char> {
    if t[0] == ':' {
        t.subrange(1, t.len() as int)
    } else {
        t.subrange(1, t.len() - 1)
    }
}

/// A template piece that the syntax accepts.
pub open spec fn is_valid_piece(t: Seq<char>) -> bool {
    if is_wildcard_text(t) {
        true
    } else if is_variable_text(t) {
        is_valid_name(name_of(t))
    } else {
        forall|i: int| 0 <= i < t.len() ==> !is_marker_char(#[trigger] t[i])
    }
}

/// The pieces of a template, trailing slashes removed.
pub open spec fn pieces(template: Seq<char>) -> Seq<Seq<char>> {
    split_segments(normalize(template))
}

/// A template that the syntax accepts.
pub open spec fn template_valid(template: Seq<char>) -> bool {
    forall|i: int| 0 <= i < pieces(template).len() ==> is_valid_piece(#[trigger] pieces(template)[i])
}

/// Whether template piece `t` accepts path segment `s`.
pub open spec fn piece_matches(t: Seq<char>, s: Seq<char>) -> bool {
    if is_wildcard_text(t) {
        is_name_text(s)
    } else if is_variable_text(t) {
        true
    } else {
        t == s
    }
}

/// The pieces accept the segments one for one.
pub open spec fn pattern_matches(pattern: Seq<Seq<char>>, segs: Seq<Seq<char>>) -> bool {
    pattern.len() == segs.len() && forall|i: int|
        0 <= i < pattern.len() ==> piece_matches(#[trigger] pattern[i], segs[i])
}

/// The names of the variable pieces among the first `n`, left to right.
pub open spec fn names_upto(pattern: Seq<Seq<char>>, n: int) -> Seq<Seq<char>>
    decreases n,
{
    if n <= 0 {
        Seq::empty()
    } else {
        let prev = names_upto(pattern, n - 1);
        if is_variable_text(pattern[n - 1]) && !is_wildcard_text(pattern[n - 1]) {
            prev.push(name_of(pattern[n - 1]))
        } else {
            prev
        }
    }
}

/// The variable names of a pattern, left to right.
pub open spec fn variable_names(pattern: Seq<Seq<char>>) -> Seq<Seq<char>> {
    names_upto(pattern, pattern.len() as int)
}

/// The (name, segment) pairs that the variable pieces among the first `n`
/// capture, left to right.
pub open spec fn captures_upto(pattern: Seq<Seq<char>>, segs: Seq<Seq<char>>, n: int) -> Seq<
    (Seq<char>, Seq<char>),
>
    decreases n,
{
    if n <= 0 {
        Seq::empty()
    } else {
        let prev = captures_upto(pattern, segs, n - 1);
        if is_variable_text(pattern[n - 1]) && !is_wildcard_text(pattern[n - 1]) {
            prev.push((name_of(pattern[n - 1]), segs[n - 1]))
        } else {
            prev
        }
    }
}

/// What matching `segs` against `pattern` captures.
pub open spec fn captures(pattern: Seq<Seq<char>>, segs: Seq<Seq<char>>) -> Seq<
    (Seq<char>, Seq<char>),
> {
    captures_upto(pattern, segs, pattern.len() as int)
}

/// The segments of a request path, trailing slashes removed.
pub open spec fn path_segments(path: Seq<char>) -> Seq<Seq<char>> {
    split_segments(normalize(path))
}

/// The views of (name, value) string pairs.
pub open spec fn pairs_view(v: Seq<(String, String)>) -> Seq<(Seq<char>, Seq<char>)> {
    v.map_values(|p: (String, String)| (p.0@, p.1@))
}

/// A template whose pieces match the segments of a path captures one value
/// per variable piece, bound to the variable names in left-to-right order,
/// each value being the path segment at that variable's position.
pub proof fn lemma_captures_follow_names(pattern: Seq<Seq<char>>, segs: Seq<Seq<char>>)
    requires
        pattern_matches(pattern, segs),
    ensures
        captures(pattern, segs).len() == variable_names(pattern).len(),
        forall|k: int|
            0 <= k < variable_names(pattern).len() ==> #[trigger] captures(pattern, segs)[k].0
                == variable_names(pattern)[k],
        forall|k: int|
            0 <= k < captures(pattern, segs).len() ==> exists|j: int|
                0 <= j < segs.len() && is_variable_text(pattern[j]) && #[trigger] captures(
                    pattern,
                    segs,
                )[k].1 == segs[j],
{
    lemma_captures_upto(pattern, segs, pattern.len() as int);
}

proof fn lemma_captures_upto(pattern: Seq<Seq<char>>, segs: Seq<Seq<char>>, n: int)
    requires
        0 <= n <= pattern.len(),
        pattern.len() == segs.len(),
    ensures
        captures_upto(pattern, segs, n).len() == names_upto(pattern, n).len(),
        forall|k: int|
            0 <= k < names_upto(pattern, n).len() ==> #[trigger] captures_upto(pattern, segs, n)[k].0
                == names_upto(pattern, n)[k],
        forall|k: int|
            0 <= k < captures_upto(pattern, segs, n).len() ==> exists|j: int|
                0 <= j < segs.len() && is_variable_text(pattern[j]) && #[trigger] captures_upto(
                    pattern,
                    segs,
                    n,
                )[k].1 == segs[j],
    decreases n,
{
    if n > 0 {
        lemma_captures_upto(pattern, segs, n - 1);
        let prev = captures_upto(pattern, segs, n - 1);
        let cur = captures_upto(pattern, segs, n);
        assert forall|k: int| 0 <= k < cur.len() implies exists|j: int|
            0 <= j < segs.len() && is_variable_text(pattern[j]) && #[trigger] cur[k].1 == segs[j] by {
            if k < prev.len() {
                assert(cur[k] == prev[k]);
                let j = choose|j: int|
                    0 <= j < segs.len() && is_variable_text(pattern[j]) && #[trigger] prev[k].1 == segs[j];
                assert(cur[k].1 == segs[j]);
            } else {
                assert(cur[k].1 == segs[n - 1]);
            }
        }
    }
}

/// One compiled template piece.
pub enum Segment {
    Literal(String),
    Variable(String),
    Wildcard,
}

impl Segment {
    /// This compiled piece stands for template piece `t`.
    pub open spec fn denotes(self, t: Seq<char>) -> bool {
        match self {
            Segment::Literal(x) => !is_wildcard_text(t) && !is_variable_text(t) && x@ == t,
            Segment::Variable(n) => !is_wildcard_text(t) && is_variable_text(t) && n@ == name_of(t),
            Segment::Wildcard => is_wildcard_text(t),
        }
    }
}

/// A compiled template: its pieces, and its variable names in order.
pub struct Matcher {
    segments: Vec<Segment>,
    names: Vec<String>,
    pattern: Ghost<Seq<Seq<char>>>,
}

/// Whether `s[from..to]` is made of name characters.
fn all_name_chars(s: &str, from: usize, to: usize) -> (r: bool)
    requires
        from <= to <= s@.len(),
    ensures
        r == is_name_text(s@.subrange(from as int, to as int)),
{
    let mut i = from;
    while i < to
        invariant
            from <= i <= to <= s@.len(),
            forall|k: int| from <= k < i ==> is_name_char(#[trigger] s@[k]),
        decreases to - i,
    {
        let c = s.get_char(i);
        if !(('a' <= c && c <= 'z') || ('A' <= c && c <= 'Z') || ('0' <= c && c <= '9') || c
            == '-' || c == '_') {
            assert(s@.subrange(from as int, to as int)[i - from] == c);
            return false;
        }
        i = i + 1;
    }
    assert forall|k: int| 0 <= k < to - from implies is_name_char(
        #[trigger] s@.subrange(from as int, to as int)[k],
    ) by {
        assert(s@.subrange(from as int, to as int)[k] == s@[from + k]);
    }
    true
}

/// Whether `s` holds none of the marker characters.
fn has_no_marker(s: &str) -> (r: bool)
    ensures
        r == forall|i: int| 0 <= i < s@.len() ==> !is_marker_char(#[trigger] s@[i]),
{
    let n = s.unicode_len();
    let mut i: usize = 0;
    while i < n
        invariant
            n == s@.len(),
            i <= n,
            forall|k: int| 0 <= k < i ==> !is_marker_char(#[trigger] s@[k]),
        decreases n - i,
    {
        let c = s.get_char(i);
        if c == ':' || c == '*' || c == '{' || c == '}' {
            return false;
        }
        i = i + 1;
    }
    true
}

/// Compiles one template piece; `None` where the syntax rejects it.
fn compile_piece(t: &str) -> (r: Option<Segment>)
    ensures
        r is Some <==> is_valid_piece(t@),
        r matches Some(seg) ==> seg.denotes(t@),
{
    let n = t.unicode_len();
    if n == 1 && t.get_char(0) == '*' {
        return Some(Segment::Wildcard);
    }
    let colon = n >= 1 && t.get_char(0) == ':';
    let braces = n >= 2 && t.get_char(0) == '{' && t.get_char(n - 1) == '}';
    if colon || braces {
        let end: usize = if colon { n } else { n - 1 };
        if end > 1 && all_name_chars(t, 1, end) {
            Some(Segment::Variable(t.substring_char(1, end).to_owned()))
        } else {
            None
        }
    } else if has_no_marker(t) {
        Some(Segment::Literal(t.to_owned()))
    } else {
        None
    }
}

impl Matcher {
    /// The template pieces that this matcher was compiled from.
    pub closed spec fn pattern(&self) -> Seq<Seq<char>> {
        self.pattern@
    }

    pub closed spec fn wf(&self) -> bool {
        &&& self.segments@.len() == self.pattern@.len()
        &&& forall|i: int|
            0 <= i < self.segments@.len() ==> #[trigger] self.segments@[i].denotes(
                self.pattern@[i],
            )
        &&& strings_view(self.names@) == variable_names(self.pattern@)
    }

    /// Compiles `template`; fails exactly when its syntax is invalid.
    pub fn compile(template: &str) -> (r: Result<Matcher, ConfigError>)
        ensures
            r is Ok <==> template_valid(template@),
            r matches Ok(m) ==> m.wf() && m.pattern() == pieces(template@),
            r matches Err(e) ==> e is InvalidTemplate,
    {
        let clean = remove_trailling_slash(template);
        let texts = split_route(clean.as_str());
        let ghost pattern = pieces(template@);
        let mut segments: Vec<Segment> = Vec::new();
        let mut names: Vec<String> = Vec::new();
        let mut i: usize = 0;
        while i < texts.len()
            invariant
                strings_view(texts@) == pattern,
                pattern == pieces(template@),
                i <= texts@.len(),
                segments@.len() == i,
                forall|k: int| 0 <= k < i ==> is_valid_piece(#[trigger] pattern[k]),
                forall|k: int| 0 <= k < i ==> #[trigger] segments@[k].denotes(pattern[k]),
                strings_view(names@) == names_upto(pattern, i as int),
            decreases texts.len() - i,
        {
            assert(pattern[i as int] == texts@[i as int]@);
            match compile_piece(texts[i].as_str()) {
                Some(seg) => {
                    let ghost before = names@;
                    match &seg {
                        Segment::Variable(n) => {
                            names.push(n.clone());
                            assert(strings_view(names@) =~= strings_view(before).push(n@));
                        },
                        _ => {},
                    }
                    segments.push(seg);
                },
                None => {
                    assert(!is_valid_piece(pieces(template@)[i as int]));
                    return Err(ConfigError::InvalidTemplate(template.to_owned()));
                },
            }
            i = i + 1;
        }
        Ok(Matcher { segments, names, pattern: Ghost(pattern) })
    }

    /// The variable names of the template, left to right.
    pub fn variable_names(&self) -> (r: &Vec<String>)
        requires
            self.wf(),
        ensures
            strings_view(r@) == variable_names(self.pattern()),
    {
        &self.names
    }

    /// Matches `path` against the template. On a match, the (name, value)
    /// pairs that the variables capture, left to right.
    pub fn match_path(&self, path: &str) -> (r: Option<Vec<(String, String)>>)
        requires
            self.wf(),
        ensures
            r is Some <==> pattern_matches(self.pattern(), path_segments(path@)),
            r matches Some(c) ==> pairs_view(c@) == captures(self.pattern(), path_segments(path@)),
    {
        let clean = remove_trailling_slash(path);
        let segs = split_route(clean.as_str());
        let ghost pattern = self.pattern@;
        let ghost sv = path_segments(path@);
        if segs.len() != self.segments.len() {
            assert(strings_view(segs@).len() == segs@.len());
            return None;
        }
        let mut caps: Vec<(String, String)> = Vec::new();
        let mut i: usize = 0;
        assert(pairs_view(caps@) =~= Seq::<(Seq<char>, Seq<char>)>::empty());
        while i < segs.len()
            invariant
                self.wf(),
                pattern == self.pattern@,
                strings_view(segs@) == sv,
                sv == path_segments(path@),
                segs@.len() == self.segments@.len(),
                i <= segs@.len(),
                forall|k: int| 0 <= k < i ==> piece_matches(#[trigger] pattern[k], sv[k]),
                pairs_view(caps@) == captures_upto(pattern, sv, i as int),
            decreases segs.len() - i,
        {
            assert(self.segments@[i as int].denotes(pattern[i as int]));
            assert(sv[i as int] == segs@[i as int]@);
            let ghost before = caps@;
            match &self.segments[i] {
                Segment::Literal(x) => {
                    if *x != segs[i] {
                        return None;
                    }
                },
                Segment::Variable(n) => {
                    caps.push((n.clone(), segs[i].clone()));
                    assert(pairs_view(caps@) =~= pairs_view(before).push(
                        (n@, segs@[i as int]@),
                    ));
                },
                Segment::Wildcard => {
                    let s = segs[i].as_str();
                    let ok = all_name_chars(s, 0, s.unicode_len());
                    assert(s@.subrange(0, s@.len() as int) =~= s@);
                    if !ok {
                        return None;
                    }
                },
            }
            i = i + 1;
        }
        Some(caps)
    }
}

} // verus!
