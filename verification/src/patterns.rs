//! Definitions of notable events and their compilation: each raw
//! definition carries a line pattern and named attribute patterns as
//! text; compiling validates every pattern, or rejects the whole set
//! naming the offending event, attribute and pattern.

use vstd::prelude::*;

verus! {

#[verifier::external_type_specification]
#[verifier::external_body]
pub struct ExRegex(regex::Regex);

/// The pattern text a compiled regex was built from.
pub uninterp spec fn re_source(re: regex::Regex) -> Seq<char>;

/// Whether the regex crate accepts a pattern text.
pub uninterp spec fn re_compiles(pat: Seq<char>) -> bool;

/// Whether a pattern matches anywhere in a text, as the regex crate
/// decides it.
pub uninterp spec fn re_match(pat: Seq<char>, text: Seq<char>) -> bool;

/// The capture groups (positions 1 and up) a pattern yields on a text:
/// one entry per group in pattern order, `None` for a group that took no
/// part in the match; `None` overall when the pattern does not match.
pub uninterp spec fn re_captures(pat: Seq<char>, text: Seq<char>) -> Option<
    Seq<Option<Seq<char>>>,
>;

/// Relies on regex::Regex::new: whether a pattern text compiles depends
/// on the text alone, and the compiled value carries that text.
#[verifier::external_body]
pub(crate) fn regex_new(pat: &str) -> (r: Option<regex::Regex>)
    ensures
        r is Some <==> re_compiles(pat@),
        r matches Some(re) ==> re_source(re) == pat@,
{
    regex::Regex::new(pat).ok()
}

/// Relies on regex::Regex::is_match: the answer depends on the compiled
/// pattern and the text alone.
#[verifier::external_body]
pub(crate) fn regex_is_match(re: &regex::Regex, text: &str) -> (r: bool)
    ensures
        r == re_match(re_source(*re), text@),
{
    re.is_match(text)
}

/// Relies on regex::Regex::captures and regex::Captures::get: captures
/// returns a value exactly when the pattern matches; groups 1 and up
/// come in pattern order, a group that took no part as `None`.
#[verifier::external_body]
pub(crate) fn regex_captures(re: &regex::Regex, text: &str) -> (r: Option<Vec<Option<String>>>)
    ensures
        r is Some <==> re_match(re_source(*re), text@),
        r.deep_view() == re_captures(re_source(*re), text@),
{
    re.captures(text).map(|caps| {
        let mut out: Vec<Option<String>> = Vec::new();
        for i in 1..caps.len() {
            out.push(caps.get(i).map(|m| m.as_str().to_string()));
        }
        out
    })
}

/// One event definition as loaded from the configuration document:
/// the event name, the line pattern, and named attribute patterns.
#[derive(Debug)]
pub struct RawEventPattern {
    pub event: String,
    pub pattern: String,
    pub attribute_patterns: Vec<(String, String)>,
}

/// The mathematical shape of a [`RawEventPattern`].
pub struct RawEventPatternView {
    pub event: Seq<char>,
    pub pattern: Seq<char>,
    pub attribute_patterns: Seq<(Seq<char>, Seq<char>)>,
}

impl View for RawEventPattern {
    type V = RawEventPatternView;

    open spec fn view(&self) -> RawEventPatternView {
        RawEventPatternView {
            event: self.event@,
            pattern: self.pattern@,
            attribute_patterns: self.attribute_patterns.deep_view(),
        }
    }
}

/// A definition whose line pattern and attribute patterns all compiled.
#[derive(Debug)]
pub struct EventPattern {
    pub event: String,
    pub pattern: regex::Regex,
    pub attribute_patterns: Vec<(String, regex::Regex)>,
}

/// The mathematical shape of an [`EventPattern`]: the compiled values
/// are represented by the pattern texts they were built from.
pub struct EventPatternView {
    pub event: Seq<char>,
    pub pattern: Seq<char>,
    pub attribute_patterns: Seq<(Seq<char>, Seq<char>)>,
}

impl View for EventPattern {
    type V = EventPatternView;

    open spec fn view(&self) -> EventPatternView {
        EventPatternView {
            event: self.event@,
            pattern: re_source(self.pattern),
            attribute_patterns: Seq::new(
                self.attribute_patterns@.len(),
                |i: int|
                    (self.attribute_patterns@[i].0@, re_source(self.attribute_patterns@[i].1)),
            ),
        }
    }
}

/// Rejection of a definition set: the event whose pattern was refused,
/// the attribute the pattern belonged to (`None` for the line pattern),
/// and the pattern text itself.
#[derive(Debug, Clone, PartialEq, Eq)]
pub struct ConfigError {
    pub event: String,
    pub attribute: Option<String>,
    pub pattern: String,
}

/// Every pattern of the definition compiles.
pub open spec fn raw_def_compiles(d: RawEventPatternView) -> bool {
    &&& re_compiles(d.pattern)
    &&& forall|i: int|
        0 <= i < d.attribute_patterns.len() ==> re_compiles(
            (#[trigger] d.attribute_patterns[i]).1,
        )
}

/// The error a definition is rejected with: it names the event, and the
/// first pattern in checking order (line pattern first, then attribute
/// patterns in listed order) that does not compile.
pub open spec fn error_for_def(e: ConfigError, d: RawEventPatternView) -> bool {
    &&& e.event@ == d.event
    &&& if !re_compiles(d.pattern) {
        e.attribute is None && e.pattern@ == d.pattern
    } else {
        exists|i: int|
            {
                &&& 0 <= i < d.attribute_patterns.len()
                &&& !re_compiles((#[trigger] d.attribute_patterns[i]).1)
                &&& forall|j: int|
                    0 <= j < i ==> re_compiles((#[trigger] d.attribute_patterns[j]).1)
                &&& e.attribute matches Some(a) && a@ == d.attribute_patterns[i].0
                &&& e.pattern@ == d.attribute_patterns[i].1
            }
    }
}

impl EventPattern {
    /// Compiles one raw definition, or rejects it naming the first
    /// pattern that does not compile.
    pub fn try_from(rep: &RawEventPattern) -> (r: Result<EventPattern, ConfigError>)
        ensures
            r is Ok <==> raw_def_compiles(rep@),
            r matches Ok(ep) ==> ep@.event == rep@.event && ep@.pattern == rep@.pattern
                && ep@.attribute_patterns == rep@.attribute_patterns,
            r matches Err(e) ==> error_for_def(e, rep@),
    {
        let line_re = match regex_new(rep.pattern.as_str()) {
            Some(re) => re,
            None => {
                return Err(
                    ConfigError {
                        event: rep.event.clone(),
                        attribute: None,
                        pattern: rep.pattern.clone(),
                    },
                );
            },
        };
        let mut compiled: Vec<(String, regex::Regex)> = Vec::new();
        let mut idx: usize = 0;
        while idx < rep.attribute_patterns.len()
            invariant
                idx <= rep.attribute_patterns@.len(),
                compiled@.len() == idx,
                re_compiles(rep@.pattern),
                forall|k: int|
                    0 <= k < idx ==> (#[trigger] compiled@[k]).0@ == rep@.attribute_patterns[k].0
                        && re_source(compiled@[k].1) == rep@.attribute_patterns[k].1,
                forall|k: int|
                    0 <= k < idx ==> re_compiles((#[trigger] rep@.attribute_patterns[k]).1),
            decreases rep.attribute_patterns@.len() - idx,
        {
            let pair = &rep.attribute_patterns[idx];
            proof {
                assert(rep@.attribute_patterns[idx as int] == (pair.0@, pair.1@));
            }
            match regex_new(pair.1.as_str()) {
                Some(re) => {
                    compiled.push((pair.0.clone(), re));
                },
                None => {
                    let attr_name = pair.0.clone();
                    let pat_text = pair.1.clone();
                    return Err(
                        ConfigError {
                            event: rep.event.clone(),
                            attribute: Some(attr_name),
                            pattern: pat_text,
                        },
                    );
                },
            }
            idx += 1;
        }
        let ep = EventPattern {
            event: rep.event.clone(),
            pattern: line_re,
            attribute_patterns: compiled,
        };
        proof {
            assert(ep@.attribute_patterns =~= rep@.attribute_patterns);
        }
        Ok(ep)
    }
}

/// Every definition of the set compiles in full.
pub open spec fn defs_compile(defs: Seq<RawEventPatternView>) -> bool {
    forall|i: int| 0 <= i < defs.len() ==> raw_def_compiles(#[trigger] defs[i])
}

/// The views of a sequence of raw definitions.
pub open spec fn raw_views(defs: Seq<RawEventPattern>) -> Seq<RawEventPatternView> {
    Seq::new(defs.len(), |i: int| defs[i]@)
}

/// The views of a sequence of compiled definitions.
pub open spec fn pattern_views(defs: Seq<EventPattern>) -> Seq<EventPatternView> {
    Seq::new(defs.len(), |i: int| defs[i]@)
}

/// Compiles a whole definition set. Succeeds exactly when every pattern
/// of every definition compiles, and then keeps count and order; fails
/// on the first definition that is rejected, with its error.
pub fn compile(defs: &Vec<RawEventPattern>) -> (r: Result<Vec<EventPattern>, ConfigError>)
    ensures
        r is Ok <==> defs_compile(raw_views(defs@)),
        r matches Ok(v) ==> v@.len() == defs@.len() && forall|i: int|
            0 <= i < defs@.len() ==> (#[trigger] v@[i])@.event == defs@[i]@.event
                && v@[i]@.pattern == defs@[i]@.pattern && v@[i]@.attribute_patterns
                == defs@[i]@.attribute_patterns,
        r matches Err(e) ==> exists|i: int|
            {
                &&& 0 <= i < defs@.len()
                &&& !raw_def_compiles((#[trigger] defs@[i])@)
                &&& forall|j: int| 0 <= j < i ==> raw_def_compiles((#[trigger] defs@[j])@)
                &&& error_for_def(e, defs@[i]@)
            },
{
    let mut out: Vec<EventPattern> = Vec::new();
    let mut idx: usize = 0;
    while idx < defs.len()
        invariant
            idx <= defs@.len(),
            out@.len() == idx,
            forall|k: int|
                0 <= k < idx ==> (#[trigger] out@[k])@.event == defs@[k]@.event
                    && out@[k]@.pattern == defs@[k]@.pattern && out@[k]@.attribute_patterns
                    == defs@[k]@.attribute_patterns,
            forall|k: int| 0 <= k < idx ==> raw_def_compiles((#[trigger] defs@[k])@),
        decreases defs@.len() - idx,
    {
        match EventPattern::try_from(&defs[idx]) {
            Ok(ep) => {
                out.push(ep);
            },
            Err(e) => {
                proof {
                    assert(raw_views(defs@)[idx as int] == defs@[idx as int]@);
                    assert(!defs_compile(raw_views(defs@)));
                }
                return Err(e);
            },
        }
        idx += 1;
    }
    proof {
        assert forall|i: int| 0 <= i < raw_views(defs@).len() implies raw_def_compiles(
            #[trigger] raw_views(defs@)[i],
        ) by {
            assert(raw_views(defs@)[i] == defs@[i]@);
            assert(raw_def_compiles(defs@[i]@));
        }
    }
    Ok(out)
}

} // verus!
