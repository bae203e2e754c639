//! Compiled patterns with named capture groups, matched by the `regex` crate.
use vstd::prelude::*;

verus! {

#[verifier::external_type_specification]
#[verifier::external_body]
pub struct ExRegex(regex::Regex);

/// Whether `regex::Regex::new` compiles `pattern` with its default settings.
pub uninterp spec fn regex_accepts(pattern: Seq<char>) -> bool;

/// The leftmost-first match of `pattern` in `line`, as the text of each named group that
/// took part in it; `None` when the pattern does not match the line.
pub uninterp spec fn regex_captures(pattern: Seq<char>, line: Seq<char>) -> Option<
    Map<Seq<char>, Seq<char>>,
>;

/// The text that group `name` matched, if it took part in the match.
pub open spec fn group(m: Map<Seq<char>, Seq<char>>, name: Seq<char>) -> Option<Seq<char>> {
    if m.contains_key(name) {
        Some(m[name])
    } else {
        None
    }
}

pub open spec fn text_view(o: Option<String>) -> Option<Seq<char>> {
    match o {
        Some(s) => Some(s@),
        None => None,
    }
}

/// Relies on `regex::Regex::new`: it compiles the pattern or reports why it cannot.
#[verifier::external_body]
fn compile_regex(pattern: &str) -> (r: Result<regex::Regex, String>)
    ensures
        r is Ok <==> regex_accepts(pattern@),
{
    regex::Regex::new(pattern).map_err(|e| e.to_string())
}

/// A pattern together with the source text it was compiled from.
pub struct Pattern {
    source: String,
    regex: regex::Regex,
}

impl View for Pattern {
    type V = Seq<char>;

    closed spec fn view(&self) -> Seq<char> {
        self.source@
    }
}

impl Pattern {
    /// Compiles `source`; the error carries the reason it was refused.
    pub fn new(source: &str) -> (r: Result<Pattern, String>)
        ensures
            r is Ok <==> regex_accepts(source@),
            r matches Ok(p) ==> p@ == source@,
    {
        match compile_regex(source) {
            Ok(regex) => Ok(Pattern { source: source.to_string(), regex }),
            Err(e) => Err(e),
        }
    }

    pub fn source(&self) -> (r: &str)
        ensures
            r@ == self@,
    {
        self.source.as_str()
    }
}

/// Relies on `regex::Regex::captures` and `regex::Captures::name`: matches `line` and
/// returns, for each name in `names`, the text its group matched.
#[verifier::external_body]
pub(crate) fn captures_named(p: &Pattern, line: &str, names: &Vec<String>) -> (r: Option<
    Vec<Option<String>>,
>)
    ensures
        match regex_captures(p@, line@) {
            None => r is None,
            Some(m) => r matches Some(v) && v.len() == names.len() && forall|i: int|
                0 <= i < names.len() ==> #[trigger] text_view(v[i]) == group(m, names[i]@),
        },
{
    p.regex.captures(line).map(
        |c| names.iter().map(|n| c.name(n).map(|g| g.as_str().to_string())).collect(),
    )
}

} // verus!
