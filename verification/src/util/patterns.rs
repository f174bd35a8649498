//! Pattern configuration: per-file-extension lists of regular expressions,
//! compiled once and shared read-only. Matching semantics are a regular
//! expression search over a pointer path; the compiled engine is the regex
//! crate, trusted through the named results below.

use vstd::prelude::*;

verus! {

#[verifier::external_type_specification]
#[verifier::external_body]
pub struct ExRegexSet(regex::RegexSet);

#[verifier::external_type_specification]
#[verifier::external_body]
pub struct ExRegexError(regex::Error);

/// The list of pattern texts a compiled set was built from.
pub uninterp spec fn regex_set_patterns(s: regex::RegexSet) -> Seq<Seq<char>>;

/// Whether every pattern in the list compiles (within the engine's default
/// limits).
pub uninterp spec fn regex_ok(pats: Seq<Seq<char>>) -> bool;

/// Whether at least one pattern in the list matches the text, as a regular
/// expression search (unanchored unless the pattern itself anchors).
pub uninterp spec fn regex_any_match(pats: Seq<Seq<char>>, text: Seq<char>) -> bool;

/// Relies on regex::RegexSet::new: compiles the given patterns, failing
/// exactly when the pattern list cannot be compiled; a compiled set holds
/// exactly the patterns it was built from.
#[verifier::external_body]
fn regex_set_new(patterns: &Vec<String>) -> (r: Result<regex::RegexSet, regex::Error>)
    ensures
        r is Ok <==> regex_ok(patterns.deep_view()),
        r matches Ok(s) ==> regex_set_patterns(s) == patterns.deep_view(),
{
    regex::RegexSet::new(patterns)
}

/// Relies on regex::RegexSet::is_match: true exactly when at least one
/// pattern of the set matches the text.
#[verifier::external_body]
pub(crate) fn regex_set_is_match(s: &regex::RegexSet, text: &str) -> (r: bool)
    ensures
        r == regex_any_match(regex_set_patterns(*s), text@),
{
    s.is_match(text)
}

/// Relies on regex::Error's Display implementation for a readable message.
#[verifier::external_body]
fn regex_error_string(e: &regex::Error) -> String {
    e.to_string()
}

/// A configuration error: a regular expression that does not compile.
#[derive(Debug)]
pub struct PatternError {
    pub message: String,
}

/// A list of raw patterns for one file extension, with its compiled form.
pub struct PatternSet {
    patterns: Ghost<Seq<Seq<char>>>,
    compiled: Option<regex::RegexSet>,
}

impl View for PatternSet {
    type V = Seq<Seq<char>>;

    closed spec fn view(&self) -> Seq<Seq<char>> {
        self.patterns@
    }
}

/// Whether at least one pattern of the set matches the path. An empty set
/// matches nothing.
pub open spec fn spec_set_matches(pats: Seq<Seq<char>>, path: Seq<char>) -> bool {
    pats.len() > 0 && regex_any_match(pats, path)
}

impl PatternSet {
    /// The compiled form agrees with the pattern list; an empty list has no
    /// compiled form.
    pub closed spec fn wf(&self) -> bool {
        match self.compiled {
            Some(s) => regex_set_patterns(s) == self.patterns@ && self.patterns@.len() > 0,
            None => self.patterns@.len() == 0,
        }
    }

    /// Compiles the given patterns; fails exactly when a non-empty list does
    /// not compile.
    pub fn new(string_patterns: Vec<String>) -> (r: Result<Self, PatternError>)
        ensures
            r matches Ok(ps) ==> ps.wf() && ps@ == string_patterns.deep_view(),
            r is Ok <==> (string_patterns@.len() == 0 || regex_ok(string_patterns.deep_view())),
    {
        if string_patterns.len() == 0 {
            proof {
                assert(string_patterns.deep_view().len() == 0);
            }
            Ok(PatternSet { patterns: Ghost(string_patterns.deep_view()), compiled: None })
        } else {
            match regex_set_new(&string_patterns) {
                Ok(s) => Ok(
                    PatternSet {
                        patterns: Ghost(string_patterns.deep_view()),
                        compiled: Some(s),
                    },
                ),
                Err(e) => Err(PatternError { message: regex_error_string(&e) }),
            }
        }
    }

    /// The compiled set, present exactly when the pattern list is non-empty.
    pub fn get_regex(&self) -> (r: Option<&regex::RegexSet>)
        requires
            self.wf(),
        ensures
            match r {
                Some(s) => regex_set_patterns(*s) == self@ && self@.len() > 0,
                None => self@.len() == 0,
            },
    {
        self.compiled.as_ref()
    }
}

/// The extension-to-patterns mapping built from an association list, a later
/// duplicate extension overwriting an earlier one.
pub open spec fn raw_config_map(s: Seq<(String, Vec<String>)>) -> Map<Seq<char>, Seq<Seq<char>>>
    decreases s.len(),
{
    if s.len() == 0 {
        Map::empty()
    } else {
        raw_config_map(s.drop_last()).insert(s.last().0@, s.last().1.deep_view())
    }
}

/// The raw configuration: for each file extension, an ordered list of
/// regular-expression pattern texts.
pub struct RawPatternConfig {
    pub patterns: Vec<(String, Vec<String>)>,
}

/// The compiled configuration, keyed by file extension.
pub struct PatternConfig {
    patterns: Vec<(String, PatternSet)>,
}

impl View for PatternConfig {
    type V = Map<Seq<char>, Seq<Seq<char>>>;

    closed spec fn view(&self) -> Map<Seq<char>, Seq<Seq<char>>> {
        Self::entries_map(self.patterns@)
    }
}

impl PatternConfig {
    pub closed spec fn entries_map(s: Seq<(String, PatternSet)>) -> Map<
        Seq<char>,
        Seq<Seq<char>>,
    >
        decreases s.len(),
    {
        if s.len() == 0 {
            Map::empty()
        } else {
            Self::entries_map(s.drop_last()).insert(s.last().0@, s.last().1@)
        }
    }

    pub closed spec fn wf(&self) -> bool {
        forall|i: int| 0 <= i < self.patterns@.len() ==> (#[trigger] self.patterns@[i].1).wf()
    }

    proof fn lemma_entries_map(s: Seq<(String, PatternSet)>)
        ensures
            forall|k: Seq<char>|
                Self::entries_map(s).contains_key(k) <==> exists|i: int|
                    0 <= i < s.len() && (#[trigger] s[i]).0@ == k,
            forall|i: int|
                (0 <= i < s.len() && (forall|j: int|
                    i < j < s.len() ==> s[j].0@ != (#[trigger] s[i]).0@))
                    ==> (Self::entries_map(s).contains_key(s[i].0@) && Self::entries_map(s)[s[i].0@]
                    == s[i].1@),
        decreases s.len(),
    {
        if s.len() > 0 {
            let dl = s.drop_last();
            Self::lemma_entries_map(dl);
            assert(forall|i: int| 0 <= i < dl.len() ==> #[trigger] dl[i] == s[i]);
            let m = Self::entries_map(s);
            let ml = Self::entries_map(dl);
            assert forall|k: Seq<char>| m.contains_key(k) implies exists|i: int|
                0 <= i < s.len() && (#[trigger] s[i]).0@ == k by {
                if k == s.last().0@ {
                    assert((s[s.len() - 1]).0@ == k);
                } else {
                    assert(ml.contains_key(k));
                    let i = choose|i: int| 0 <= i < dl.len() && (#[trigger] dl[i]).0@ == k;
                    assert((s[i]).0@ == k);
                }
            }
            assert forall|k: Seq<char>|
                (exists|i: int| 0 <= i < s.len() && (#[trigger] s[i]).0@ == k) implies m.contains_key(
                k,
            ) by {
                let i = choose|i: int| 0 <= i < s.len() && (#[trigger] s[i]).0@ == k;
                if i < s.len() - 1 {
                    assert(dl[i].0@ == k);
                    assert(ml.contains_key(k));
                }
            }
            assert forall|i: int|
                (0 <= i < s.len() && (forall|j: int|
                    i < j < s.len() ==> s[j].0@ != (#[trigger] s[i]).0@)) implies (m.contains_key(
                s[i].0@,
            ) && m[s[i].0@] == s[i].1@) by {
                if i < s.len() - 1 {
                    assert(dl[i].0@ == s[i].0@);
                    assert(forall|j: int| i < j < dl.len() ==> dl[j].0@ != dl[i].0@);
                    assert(ml.contains_key(dl[i].0@) && ml[dl[i].0@] == dl[i].1@);
                    assert(s[i].0@ != s.last().0@);
                }
            }
        }
    }

    /// Compiles every entry of the raw configuration; fails exactly when some
    /// entry's non-empty pattern list does not compile.
    pub fn from_raw_config(raw_config: RawPatternConfig) -> (r: Result<Self, PatternError>)
        ensures
            r matches Ok(c) ==> c.wf() && c@ == raw_config_map(raw_config.patterns@),
            r is Ok <==> (forall|i: int|
                0 <= i < raw_config.patterns@.len()
                    ==> ((#[trigger] raw_config.patterns@[i]).1@.len() == 0 || regex_ok(
                    raw_config.patterns@[i].1.deep_view(),
                ))),
    {
        broadcast use vstd::std_specs::vec::group_vec_axioms;

        let raw = raw_config.patterns;
        let ghost raw0 = raw@;
        let mut result: Vec<(String, PatternSet)> = Vec::new();
        let mut i: usize = 0;
        while i < raw.len()
            invariant
                i <= raw@.len(),
                raw@ == raw0,
                raw0 == raw_config.patterns@,
                forall|p: int| 0 <= p < result@.len() ==> (#[trigger] result@[p].1).wf(),
                Self::entries_map(result@) == raw_config_map(raw0.subrange(0, i as int)),
                forall|j: int|
                    0 <= j < i ==> ((#[trigger] raw0[j]).1@.len() == 0 || regex_ok(
                        raw0[j].1.deep_view(),
                    )),
            decreases raw@.len() - i,
        {
            let ext = raw[i].0.clone();
            let pats = raw[i].1.clone();
            proof {
                vec_string_clone_view(raw0[i as int].1, pats);
            }
            let set = match PatternSet::new(pats) {
                Ok(s) => s,
                Err(e) => {
                    proof {
                        assert(raw0 == raw_config.patterns@);
                        assert(!((#[trigger] raw_config.patterns@[i as int]).1@.len() == 0
                            || regex_ok(raw_config.patterns@[i as int].1.deep_view())));
                    }
                    return Err(e);
                },
            };
            let ghost before = result@;
            result.push((ext, set));
            proof {
                assert(result@.drop_last() =~= before);
                assert(raw0.subrange(0, i + 1).drop_last() =~= raw0.subrange(0, i as int));
                assert(raw0.subrange(0, i + 1).last() == raw0[i as int]);
            }
            i = i + 1;
        }
        proof {
            assert(raw0.subrange(0, raw0.len() as int) =~= raw0);
        }
        Ok(PatternConfig { patterns: result })
    }

    /// Whether the configuration knows the given file extension.
    pub fn contains_extension(&self, ext: &str) -> (r: bool)
        requires
            self.wf(),
        ensures
            r == self@.contains_key(ext@),
    {
        match self.get_pattern_set(ext) {
            Some(_) => true,
            None => false,
        }
    }

    /// The pattern set for the given file extension, if any.
    pub fn get_pattern_set(&self, ext: &str) -> (r: Option<&PatternSet>)
        requires
            self.wf(),
        ensures
            match r {
                Some(ps) => self@.contains_key(ext@) && ps@ == self@[ext@] && ps.wf(),
                None => !self@.contains_key(ext@),
            },
    {
        let key = ext.to_owned();
        let mut i: usize = self.patterns.len();
        while i > 0
            invariant
                i <= self.patterns@.len(),
                key@ == ext@,
                self.wf(),
                forall|j: int|
                    i <= j < self.patterns@.len() ==> (#[trigger] self.patterns@[j]).0@ != ext@,
            decreases i,
        {
            i = i - 1;
            if self.patterns[i].0 == key {
                proof {
                    Self::lemma_entries_map(self.patterns@);
                }
                return Some(&self.patterns[i].1);
            }
        }
        proof {
            Self::lemma_entries_map(self.patterns@);
        }
        None
    }
}

/// Cloning a vector of strings keeps its deep view.
proof fn vec_string_clone_view(a: Vec<String>, b: Vec<String>)
    requires
        a@.len() == b@.len(),
        forall|i: int| 0 <= i < a@.len() ==> cloned(a@[i], #[trigger] b@[i]),
    ensures
        a.deep_view() == b.deep_view(),
{
    assert forall|i: int| 0 <= i < a@.len() implies a@[i] == b@[i] by {
        assert(cloned(a@[i], b@[i]));
    }
    assert(a.deep_view() =~= b.deep_view());
}

} // verus!
