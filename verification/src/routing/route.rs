//! Compiled path patterns and routes.
//!
//! A template is split on `/`; a piece prefixed with `:` becomes a named
//! capture matching any non-empty segment, a piece equal to `*` becomes an
//! unnamed wildcard matching a non-empty segment of word characters, and
//! any other piece matches only itself. Patterns are anchored: a path
//! matches only when it has exactly as many segments as the pattern.

use vstd::prelude::*;

use crate::handler::Handler;
use crate::http::{spec_insert_pair, Headers, RequestMethod, Response};
use crate::text::{spec_split, split_on, str_eq};

verus! {

/// The named path parameters captured by a match.
pub type Params = Headers;

/// One compiled segment of a path pattern.
#[derive(Debug)]
pub enum Segment {
    /// Matches exactly this text.
    Literal(String),
    /// Matches any non-empty segment and captures it under this name.
    Param(String),
    /// Matches any non-empty segment of word characters, capturing nothing.
    Wildcard,
}

/// The mathematical form of a segment.
pub enum SpecSegment {
    Literal(Seq<char>),
    Param(Seq<char>),
    Wildcard,
}

impl View for Segment {
    type V = SpecSegment;

    open spec fn view(&self) -> SpecSegment {
        match self {
            Segment::Literal(l) => SpecSegment::Literal(l@),
            Segment::Param(n) => SpecSegment::Param(n@),
            Segment::Wildcard => SpecSegment::Wildcard,
        }
    }
}

impl DeepView for Segment {
    type V = SpecSegment;

    open spec fn deep_view(&self) -> SpecSegment {
        self.view()
    }
}

/// What one template piece compiles to.
pub open spec fn spec_compile_segment(piece: Seq<char>) -> SpecSegment {
    if piece.len() > 0 && piece[0] == ':' {
        SpecSegment::Param(piece.skip(1))
    } else if piece == seq!['*'] {
        SpecSegment::Wildcard
    } else {
        SpecSegment::Literal(piece)
    }
}

/// What a whole template compiles to: one segment per `/`-separated piece.
pub open spec fn spec_compile(template: Seq<char>) -> Seq<SpecSegment> {
    spec_split(template, '/').map_values(|piece: Seq<char>| spec_compile_segment(piece))
}

/// A word character: alphanumeric, `.`, `-` or `_`.
pub open spec fn is_word_char(c: char) -> bool {
    (97 <= c as u32 <= 122) || (65 <= c as u32 <= 90) || (48 <= c as u32 <= 57) || c as u32 == 46
        || c as u32 == 45 || c as u32 == 95
}

/// Whether one pattern segment accepts one path segment.
pub open spec fn spec_segment_matches(seg: SpecSegment, text: Seq<char>) -> bool {
    match seg {
        SpecSegment::Literal(l) => text == l,
        SpecSegment::Param(_) => text.len() > 0,
        SpecSegment::Wildcard => text.len() > 0 && (forall|j: int|
            0 <= j < text.len() ==> is_word_char(text[j])),
    }
}

/// Whether a pattern accepts a whole path: segment counts agree and every
/// segment accepts its piece. The wildcard never crosses `/`.
pub open spec fn spec_pattern_matches(pattern: Seq<SpecSegment>, path: Seq<char>) -> bool {
    let parts = spec_split(path, '/');
    parts.len() == pattern.len() && (forall|i: int|
        0 <= i < pattern.len() ==> spec_segment_matches(pattern[i], parts[i]))
}

/// The parameters captured from `parts` by the segments of `pattern` from
/// position `i` on, added to `acc`; a repeated name keeps its later value.
pub open spec fn spec_captures_from(
    pattern: Seq<SpecSegment>,
    parts: Seq<Seq<char>>,
    i: int,
    acc: Seq<(Seq<char>, Seq<char>)>,
) -> Seq<(Seq<char>, Seq<char>)>
    decreases pattern.len() - i,
{
    if i < 0 || i >= pattern.len() {
        acc
    } else {
        let acc2 = match pattern[i] {
            SpecSegment::Param(name) => spec_insert_pair(acc, name, parts[i]),
            _ => acc,
        };
        spec_captures_from(pattern, parts, i + 1, acc2)
    }
}

/// The parameters a successful match of `pattern` against `path` captures.
pub open spec fn spec_captures(pattern: Seq<SpecSegment>, path: Seq<char>) -> Seq<(
    Seq<char>,
    Seq<char>,
)> {
    spec_captures_from(pattern, spec_split(path, '/'), 0, Seq::empty())
}

/// The outcome of matching: the captured parameters on success, nothing on
/// failure.
pub open spec fn spec_route_match(pattern: Seq<SpecSegment>, path: Seq<char>) -> Option<
    Seq<(Seq<char>, Seq<char>)>,
> {
    if spec_pattern_matches(pattern, path) {
        Some(spec_captures(pattern, path))
    } else {
        None
    }
}

/// A wildcard never reaches across `/`: whatever piece it accepts in a
/// successful match is one whole path segment — non-empty, made of word
/// characters, and free of `/`.
pub proof fn lemma_wildcard_stays_in_segment(pattern: Seq<SpecSegment>, path: Seq<char>, i: int)
    requires
        spec_pattern_matches(pattern, path),
        0 <= i < pattern.len(),
        pattern[i] is Wildcard,
    ensures
        spec_split(path, '/')[i].len() > 0,
        forall|j: int| 0 <= j < spec_split(path, '/')[i].len() ==> is_word_char(
            #[trigger] spec_split(path, '/')[i][j],
        ),
        !spec_split(path, '/')[i].contains('/'),
{
    assert(spec_segment_matches(pattern[i], spec_split(path, '/')[i]));
    crate::text::lemma_split_pieces_no_sep(path, '/');
}

fn word_char(c: char) -> (r: bool)
    ensures
        r == is_word_char(c),
{
    let u = c as u32;
    (97 <= u && u <= 122) || (65 <= u && u <= 90) || (48 <= u && u <= 57) || u == 46 || u == 45
        || u == 95
}

/// Compiles a `/`-separated template into segments.
pub fn compile(template: &str) -> (r: Vec<Segment>)
    ensures
        r.deep_view() == spec_compile(template@),
{
    let pieces = split_on(template, '/');
    let mut segments: Vec<Segment> = Vec::new();
    proof {
        assert(segments.deep_view() =~= spec_compile(template@).take(0));
    }
    let n = pieces.len();
    let mut i: usize = 0;
    while i < n
        invariant
            n == pieces@.len(),
            pieces.deep_view() == spec_split(template@, '/'),
            i <= n,
            segments.deep_view() == spec_compile(template@).take(i as int),
        decreases n - i,
    {
        let piece = &pieces[i];
        proof {
            assert(piece@ == spec_split(template@, '/')[i as int]);
        }
        let len = piece.as_str().unicode_len();
        let seg = if len > 0 && piece.as_str().get_char(0) == ':' {
            let name = piece.as_str().substring_char(1, len).to_owned();
            proof {
                assert(name@ =~= piece@.skip(1));
            }
            Segment::Param(name)
        } else if len == 1 && piece.as_str().get_char(0) == '*' {
            proof {
                assert(piece@ =~= seq!['*']);
            }
            Segment::Wildcard
        } else {
            Segment::Literal(piece.clone())
        };
        proof {
            assert(seg.deep_view() == spec_compile_segment(piece@));
            let comp = spec_compile(template@);
            assert(comp.len() == spec_split(template@, '/').len());
            assert(comp[i as int] == spec_compile_segment(spec_split(template@, '/')[i as int]));
        }
        let ghost before_vec = segments@;
        let ghost before_deep = segments.deep_view();
        segments.push(seg);
        proof {
            let comp = spec_compile(template@);
            assert(pieces.deep_view().len() == n);
            assert(spec_split(template@, '/').len() == n);
            assert(comp.len() == n);
            assert(comp.take(i as int).len() == i as int);
            assert(before_deep.len() == i as int);
            assert(before_vec.len() == i as int);
            assert(segments@ == before_vec.push(seg));
            assert(segments@.len() == i + 1);
            assert forall|j: int| 0 <= j <= i as int implies segments.deep_view()[j] == comp.take(
                i + 1,
            )[j] by {
                assert(segments.deep_view()[j] == segments@[j].deep_view());
                if j < i as int {
                    assert(segments@[j] == before_vec[j]);
                    assert(before_deep[j] == before_vec[j].deep_view());
                    assert(before_deep[j] == comp.take(i as int)[j]);
                } else {
                    assert(segments@[j] == seg);
                }
            }
            assert(segments.deep_view().len() == i + 1);
            assert(comp.take(i + 1).len() == i + 1);
            assert(segments.deep_view() =~= comp.take(i + 1));
        }
        i += 1;
    }
    proof {
        assert(spec_compile(template@).take(n as int) =~= spec_compile(template@));
        assert(segments.deep_view() =~= spec_compile(template@));
    }
    segments
}

/// A route: a method, a compiled pattern, and the handler serving it.
pub struct Route<H> {
    pub method: RequestMethod,
    pub pattern: Vec<Segment>,
    pub handler: H,
}

impl<H: Handler<Response = Response>> Route<H> {
    /// Compiles `path` into an anchored pattern for the given method.
    pub fn new(method: RequestMethod, path: &str, handler: H) -> (r: Self)
        ensures
            r.method == method,
            r.pattern.deep_view() == spec_compile(path@),
            r.handler == handler,
    {
        Self { method, pattern: compile(path), handler }
    }

    /// Matches the whole path against the pattern: the captured parameters
    /// on success. Matching reads only the pattern and the path; it changes
    /// nothing.
    pub fn matches(&self, path: &str) -> (r: Option<Params>)
        ensures
            match spec_route_match(self.pattern.deep_view(), path@) {
                Some(c) => r matches Some(params) && params@ == c && params.wf(),
                None => r is None,
            },
    {
        let ghost pattern = self.pattern.deep_view();
        let parts = split_on(path, '/');
        let n = self.pattern.len();
        if parts.len() != n {
            proof {
                assert(spec_split(path@, '/').len() == parts@.len());
                assert(!spec_pattern_matches(pattern, path@));
            }
            return None;
        }
        let mut captures = Params::new();
        proof {
            assert(captures@ =~~= Seq::<(Seq<char>, Seq<char>)>::empty());
        }
        let mut i: usize = 0;
        while i < n
            invariant
                n == pattern.len(),
                pattern == self.pattern.deep_view(),
                parts@.len() == n,
                parts.deep_view() == spec_split(path@, '/'),
                i <= n,
                captures.wf(),
                forall|j: int| 0 <= j < i ==> spec_segment_matches(
                    pattern[j],
                    spec_split(path@, '/')[j],
                ),
                spec_captures_from(pattern, spec_split(path@, '/'), 0, Seq::empty())
                    == spec_captures_from(pattern, spec_split(path@, '/'), i as int, captures@),
            decreases n - i,
        {
            let piece = &parts[i];
            proof {
                assert(piece@ == spec_split(path@, '/')[i as int]);
                assert(self.pattern@[i as int].deep_view() == pattern[i as int]);
            }
            let ghost old_caps = captures@;
            match &self.pattern[i] {
                Segment::Literal(l) => {
                    if !str_eq(l.as_str(), piece.as_str()) {
                        proof {
                            assert(!spec_segment_matches(pattern[i as int], piece@));
                            assert(!spec_pattern_matches(pattern, path@));
                        }
                        return None;
                    }
                },
                Segment::Param(name) => {
                    if piece.as_str().is_empty() {
                        proof {
                            assert(!spec_segment_matches(pattern[i as int], piece@));
                            assert(!spec_pattern_matches(pattern, path@));
                        }
                        return None;
                    }
                    captures.insert(name.clone(), piece.clone());
                },
                Segment::Wildcard => {
                    let len = piece.as_str().unicode_len();
                    if len == 0 {
                        proof {
                            assert(!spec_segment_matches(pattern[i as int], piece@));
                            assert(!spec_pattern_matches(pattern, path@));
                        }
                        return None;
                    }
                    let mut k: usize = 0;
                    while k < len
                        invariant
                            len == piece@.len(),
                            0 < len,
                            k <= len,
                            pattern == self.pattern.deep_view(),
                            pattern[i as int] is Wildcard,
                            piece@ == spec_split(path@, '/')[i as int],
                            parts@.len() == n,
                            n == pattern.len(),
                            i < n,
                            forall|j: int| 0 <= j < k ==> is_word_char(piece@[j]),
                        decreases len - k,
                    {
                        if !word_char(piece.as_str().get_char(k)) {
                            proof {
                                assert(!spec_segment_matches(pattern[i as int], piece@));
                                assert(!spec_pattern_matches(pattern, path@));
                            }
                            return None;
                        }
                        k += 1;
                    }
                },
            }
            proof {
                assert(spec_segment_matches(pattern[i as int], spec_split(path@, '/')[i as int]));
                assert(spec_captures_from(pattern, spec_split(path@, '/'), i as int, old_caps)
                    == spec_captures_from(pattern, spec_split(path@, '/'), i + 1, captures@));
            }
            i += 1;
        }
        Some(captures)
    }

    pub fn method(&self) -> (r: &RequestMethod)
        ensures
            *r == self.method,
    {
        &self.method
    }

    /// The handler serving this route.
    pub fn handler(&mut self) -> (r: &mut H)
        ensures
            *r == old(self).handler,
            final(self).method == old(self).method,
            final(self).pattern == old(self).pattern,
            final(self).handler == *final(r),
    {
        &mut self.handler
    }
}

} // verus!
