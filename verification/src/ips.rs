//! The package manifest language: typed actions parsed from the
//! line-oriented manifest format.
//!
//! Each manifest line starts with an alphabetic action-type token followed by
//! free-standing tokens and `key=value` properties (values optionally quoted
//! with `"` or `'`).  `depend` lines are interpreted strictly: every property
//! present must be consumed by a typed accessor, so an unrecognized property
//! is a hard parse error.  All other action types are captured generically.

use vstd::prelude::*;

use crate::text::{chars_eq_str, chars_of, spec_lines, split_lines, string_from_chars, str_eq, vec_contains_string};

verus! {

/// Errors of manifest interpretation.  Parsing a manifest fails on the first
/// line that produces one of these.
#[derive(Debug, Clone, Copy, PartialEq, Eq, Structural)]
pub enum ManifestError {
    /// A line does not follow the token grammar (bad character, unterminated
    /// or mismatched quote, backslash escape, missing value).
    BadLine,
    /// A property that must be present has no value.
    MissingProperty,
    /// A property that must be single-valued has more than one value.
    MultipleValues,
    /// The `type` property of a `depend` line is not a known dependency kind.
    UnknownDependType,
    /// A `depend` line carries a property that no accessor consumed.
    ExtraProperties,
}

/// The kind of a dependency edge, parsed from the fixed `type` vocabulary.
#[derive(Debug, Clone, Copy, PartialEq, Eq, Structural)]
pub enum DependType {
    Incorporate,
    Require,
    RequireAny,
    Group,
    GroupAny,
    Optional,
    Conditional,
}

/// The dependency kind a `type` value denotes, if any.
pub open spec fn spec_depend_type(s: Seq<char>) -> Option<DependType> {
    if s == "incorporate"@ {
        Some(DependType::Incorporate)
    } else if s == "require"@ {
        Some(DependType::Require)
    } else if s == "require-any"@ {
        Some(DependType::RequireAny)
    } else if s == "group"@ {
        Some(DependType::Group)
    } else if s == "group-any"@ {
        Some(DependType::GroupAny)
    } else if s == "optional"@ {
        Some(DependType::Optional)
    } else if s == "conditional"@ {
        Some(DependType::Conditional)
    } else {
        None
    }
}

impl DependType {
    /// Parse a `type` property value into a dependency kind.
    pub fn parse(s: &str) -> (r: Result<DependType, ManifestError>)
        ensures
            match r {
                Ok(t) => spec_depend_type(s@) == Some(t),
                Err(e) => spec_depend_type(s@) is None && e == ManifestError::UnknownDependType,
            },
    {
        if str_eq(s, "incorporate") {
            Ok(DependType::Incorporate)
        } else if str_eq(s, "require") {
            Ok(DependType::Require)
        } else if str_eq(s, "require-any") {
            Ok(DependType::RequireAny)
        } else if str_eq(s, "group") {
            Ok(DependType::Group)
        } else if str_eq(s, "group-any") {
            Ok(DependType::GroupAny)
        } else if str_eq(s, "optional") {
            Ok(DependType::Optional)
        } else if str_eq(s, "conditional") {
            Ok(DependType::Conditional)
        } else {
            Err(ManifestError::UnknownDependType)
        }
    }
}

/// Mathematical content of a property bag: the ordered `key = value` pairs
/// of one manifest line, and the keys not yet consumed by a typed accessor.
#[verifier::ext_equal]
pub struct ValsModel {
    pub vals: Seq<(Seq<char>, Seq<char>)>,
    pub extra: Seq<Seq<char>>,
}

/// The values recorded for `name`, in order.
pub open spec fn values_for(vals: Seq<(Seq<char>, Seq<char>)>, name: Seq<char>) -> Seq<Seq<char>>
    decreases vals.len(),
{
    if vals.len() == 0 {
        Seq::empty()
    } else {
        let rest = values_for(vals.drop_last(), name);
        if vals.last().0 == name {
            rest.push(vals.last().1)
        } else {
            rest
        }
    }
}

/// The tracked keys with `name` taken out.
pub open spec fn remove_key(extra: Seq<Seq<char>>, name: Seq<char>) -> Seq<Seq<char>>
    decreases extra.len(),
{
    if extra.len() == 0 {
        Seq::empty()
    } else {
        let rest = remove_key(extra.drop_last(), name);
        if extra.last() == name {
            rest
        } else {
            rest.push(extra.last())
        }
    }
}

/// A key of the `facet.` namespace, dropped unconditionally at insertion.
pub open spec fn is_facet_key(k: Seq<char>) -> bool {
    k.len() >= 6 && k.take(6) == "facet."@
}

/// Effect of recording one `key = value` pair in a property bag.
pub open spec fn spec_insert(m: ValsModel, k: Seq<char>, v: Seq<char>) -> ValsModel {
    if is_facet_key(k) {
        m
    } else {
        ValsModel {
            vals: m.vals.push((k, v)),
            extra: if m.extra.contains(k) {
                m.extra
            } else {
                m.extra.push(k)
            },
        }
    }
}

pub proof fn lemma_values_for_push(
    vals: Seq<(Seq<char>, Seq<char>)>,
    p: (Seq<char>, Seq<char>),
    name: Seq<char>,
)
    ensures
        values_for(vals.push(p), name) == if p.0 == name {
            values_for(vals, name).push(p.1)
        } else {
            values_for(vals, name)
        },
{
    assert(vals.push(p).drop_last() =~= vals);
    assert(vals.push(p).last() == p);
}

pub proof fn lemma_values_for_prefix_le(
    vals: Seq<(Seq<char>, Seq<char>)>,
    name: Seq<char>,
    i: int,
)
    requires
        0 <= i <= vals.len(),
    ensures
        values_for(vals.take(i), name).len() <= values_for(vals, name).len(),
    decreases vals.len() - i,
{
    if i == vals.len() {
        assert(vals.take(i) =~= vals);
    } else {
        lemma_values_for_prefix_le(vals, name, i + 1);
        assert(vals.take(i + 1).drop_last() =~= vals.take(i));
        assert(vals.take(i + 1).last() == vals[i]);
    }
}

pub proof fn lemma_remove_key_push(extra: Seq<Seq<char>>, k: Seq<char>, name: Seq<char>)
    ensures
        remove_key(extra.push(k), name) == if k == name {
            remove_key(extra, name)
        } else {
            remove_key(extra, name).push(k)
        },
{
    assert(extra.push(k).drop_last() =~= extra);
    assert(extra.push(k).last() == k);
}


/// The strings of `v` with every occurrence of `name` removed.
fn remove_string(v: &Vec<String>, name: &str) -> (r: Vec<String>)
    ensures
        r.deep_view() == remove_key(v.deep_view(), name@),
{
    let n: usize = v.len();
    let mut out: Vec<String> = Vec::new();
    let mut i: usize = 0;
    proof {
        assert(v.deep_view().take(0) =~= Seq::<Seq<char>>::empty());
        assert(out.deep_view() =~= remove_key(v.deep_view().take(0), name@));
    }
    while i < n
        invariant
            i <= n,
            n == v@.len(),
            out.deep_view() == remove_key(v.deep_view().take(i as int), name@),
        decreases n - i,
    {
        let ghost pre = v.deep_view().take(i as int);
        proof {
            assert(v.deep_view().take(i as int + 1) =~= pre.push(v.deep_view()[i as int]));
            lemma_remove_key_push(pre, v.deep_view()[i as int], name@);
        }
        if !str_eq(v[i].as_str(), name) {
            let ghost out0 = out.deep_view();
            out.push(v[i].clone());
            proof {
                assert(out.deep_view() =~~= out0.push(v.deep_view()[i as int]));
            }
        }
        i = i + 1;
    }
    proof {
        assert(v.deep_view().take(n as int) =~= v.deep_view());
    }
    out
}

/// An ordered multi-map from property key to value, with a tracking list of
/// the keys not yet consumed by a typed accessor.  A fully interpreted line
/// must leave the tracking list empty.
#[derive(Debug)]
pub struct Vals {
    vals: Vec<(String, String)>,
    extra: Vec<String>,
}

impl View for Vals {
    type V = ValsModel;

    closed spec fn view(&self) -> ValsModel {
        ValsModel { vals: self.vals.deep_view(), extra: self.extra.deep_view() }
    }
}

impl Vals {
    /// An empty property bag.
    pub fn new() -> (r: Vals)
        ensures
            r@.vals == Seq::<(Seq<char>, Seq<char>)>::empty(),
            r@.extra == Seq::<Seq<char>>::empty(),
    {
        let r = Vals { vals: Vec::new(), extra: Vec::new() };
        proof {
            assert(r@.vals =~= Seq::<(Seq<char>, Seq<char>)>::empty());
            assert(r@.extra =~= Seq::<Seq<char>>::empty());
        }
        r
    }

    /// Record one property.  Keys of the `facet.` namespace are dropped;
    /// any other key is appended and marked unconsumed.
    pub fn insert(&mut self, key: &str, value: &str)
        ensures
            final(self)@ == spec_insert(old(self)@, key@, value@),
    {
        let facet = if key.unicode_len() >= 6 {
            str_eq(key.substring_char(0, 6), "facet.")
        } else {
            false
        };
        assert(facet == is_facet_key(key@));
        if facet {
            return;
        }
        let is_new = !vec_contains_string(&self.extra, key);
        let ghost vals0 = self@.vals;
        let ghost extra0 = self@.extra;
        self.vals.push((key.to_owned(), value.to_owned()));
        proof {
            assert(self@.vals =~~= vals0.push((key@, value@)));
        }
        if is_new {
            self.extra.push(key.to_owned());
            proof {
                assert(self@.extra =~~= extra0.push(key@));
            }
        }
    }

    /// The value of a property expected at most once: `Ok(None)` when it is
    /// absent, `Ok(Some(..))` for exactly one value, an error for more.
    /// On success the key is marked consumed.
    pub fn maybe_single(&mut self, name: &str) -> (r: Result<Option<String>, ManifestError>)
        ensures
            match r {
                Ok(o) => {
                    &&& values_for(old(self)@.vals, name@).len() <= 1
                    &&& match o {
                        Some(s) => values_for(old(self)@.vals, name@) == seq![s@],
                        None => values_for(old(self)@.vals, name@).len() == 0,
                    }
                    &&& final(self)@.vals == old(self)@.vals
                    &&& final(self)@.extra == remove_key(old(self)@.extra, name@)
                },
                Err(e) => {
                    &&& e == ManifestError::MultipleValues
                    &&& values_for(old(self)@.vals, name@).len() >= 2
                    &&& final(self)@ == old(self)@
                },
            },
    {
        let mut out: Option<String> = None;
        let n: usize = self.vals.len();
        let mut i: usize = 0;
        proof {
            assert(self@.vals.take(0) =~= Seq::<(Seq<char>, Seq<char>)>::empty());
        }
        while i < n
            invariant
                i <= n,
                n == self.vals@.len(),
                self == old(self),
                match out {
                    Some(s) => values_for(self@.vals.take(i as int), name@) == seq![s@],
                    None => values_for(self@.vals.take(i as int), name@).len() == 0,
                },
            decreases n - i,
        {
            let ghost pre = self@.vals.take(i as int);
            proof {
                assert(self@.vals.take(i as int + 1) =~= pre.push(self@.vals[i as int]));
                lemma_values_for_push(pre, self@.vals[i as int], name@);
            }
            if str_eq(self.vals[i].0.as_str(), name) {
                if out.is_some() {
                    proof {
                        lemma_values_for_prefix_le(self@.vals, name@, i as int + 1);
                    }
                    return Err(ManifestError::MultipleValues);
                }
                out = Some(self.vals[i].1.clone());
            }
            i = i + 1;
        }
        proof {
            assert(self@.vals.take(n as int) =~= self@.vals);
        }
        self.extra = remove_string(&self.extra, name);
        Ok(out)
    }

    /// The value of a property that must be present exactly once.
    pub fn single(&mut self, name: &str) -> (r: Result<String, ManifestError>)
        ensures
            match r {
                Ok(s) => {
                    &&& values_for(old(self)@.vals, name@) == seq![s@]
                    &&& final(self)@.vals == old(self)@.vals
                    &&& final(self)@.extra == remove_key(old(self)@.extra, name@)
                },
                Err(e) => {
                    &&& match e {
                        ManifestError::MissingProperty => {
                            &&& values_for(old(self)@.vals, name@).len() == 0
                            &&& final(self)@.vals == old(self)@.vals
                            &&& final(self)@.extra == remove_key(old(self)@.extra, name@)
                        },
                        ManifestError::MultipleValues => {
                            &&& values_for(old(self)@.vals, name@).len() >= 2
                            &&& final(self)@ == old(self)@
                        },
                        _ => false,
                    }
                },
            },
    {
        match self.maybe_single(name)? {
            Some(s) => Ok(s),
            None => Err(ManifestError::MissingProperty),
        }
    }

    /// Every value of a property, possibly none.  The key is marked
    /// consumed.  Never fails; the `Result` mirrors the other accessors.
    pub fn maybe_list(&mut self, name: &str) -> (r: Result<Vec<String>, ManifestError>)
        ensures
            r is Ok,
            r->Ok_0.deep_view() == values_for(old(self)@.vals, name@),
            final(self)@.vals == old(self)@.vals,
            final(self)@.extra == remove_key(old(self)@.extra, name@),
    {
        let mut out: Vec<String> = Vec::new();
        let n: usize = self.vals.len();
        let mut i: usize = 0;
        proof {
            assert(self@.vals.take(0) =~= Seq::<(Seq<char>, Seq<char>)>::empty());
            assert(out.deep_view() =~= values_for(self@.vals.take(0), name@));
        }
        while i < n
            invariant
                i <= n,
                n == self.vals@.len(),
                self == old(self),
                out.deep_view() == values_for(self@.vals.take(i as int), name@),
            decreases n - i,
        {
            let ghost pre = self@.vals.take(i as int);
            proof {
                assert(self@.vals.take(i as int + 1) =~= pre.push(self@.vals[i as int]));
                lemma_values_for_push(pre, self@.vals[i as int], name@);
            }
            if str_eq(self.vals[i].0.as_str(), name) {
                let ghost out0 = out.deep_view();
                out.push(self.vals[i].1.clone());
                proof {
                    assert(out.deep_view() =~~= out0.push(self@.vals[i as int].1));
                }
            }
            i = i + 1;
        }
        proof {
            assert(self@.vals.take(n as int) =~= self@.vals);
        }
        self.extra = remove_string(&self.extra, name);
        Ok(out)
    }

    /// Every value of a property that must be present at least once.
    pub fn list(&mut self, name: &str) -> (r: Result<Vec<String>, ManifestError>)
        ensures
            match r {
                Ok(v) => {
                    &&& v.deep_view() == values_for(old(self)@.vals, name@)
                    &&& v@.len() > 0
                },
                Err(e) => {
                    &&& e == ManifestError::MissingProperty
                    &&& values_for(old(self)@.vals, name@).len() == 0
                },
            },
            final(self)@.vals == old(self)@.vals,
            final(self)@.extra == remove_key(old(self)@.extra, name@),
    {
        let out = self.maybe_list(name)?;
        if out.len() == 0 {
            Err(ManifestError::MissingProperty)
        } else {
            Ok(out)
        }
    }

    /// The closed-world schema check: fails unless every key present was
    /// consumed by an accessor.
    pub fn check_for_extra(&self) -> (r: Result<(), ManifestError>)
        ensures
            match r {
                Ok(()) => self@.extra.len() == 0,
                Err(e) => e == ManifestError::ExtraProperties && self@.extra.len() > 0,
            },
    {
        if self.extra.len() != 0 {
            Err(ManifestError::ExtraProperties)
        } else {
            Ok(())
        }
    }
}

/// An ASCII alphabetic character, the only characters allowed in an
/// action-type token.
pub open spec fn spec_is_alpha(c: char) -> bool {
    ('a' <= c && c <= 'z') || ('A' <= c && c <= 'Z')
}

/// A character allowed in a property key or free token.
pub open spec fn spec_is_key_char(c: char) -> bool {
    ||| spec_is_alpha(c)
    ||| ('0' <= c && c <= '9')
    ||| c == '.'
    ||| c == '-'
    ||| c == '_'
    ||| c == '/'
    ||| c == '@'
}

fn is_alpha_char(c: char) -> (r: bool)
    ensures
        r == spec_is_alpha(c),
{
    ('a' <= c && c <= 'z') || ('A' <= c && c <= 'Z')
}

fn is_key_char(c: char) -> (r: bool)
    ensures
        r == spec_is_key_char(c),
{
    is_alpha_char(c) || ('0' <= c && c <= '9') || c == '.' || c == '-' || c == '_' || c == '/'
        || c == '@'
}

/// Position of the per-line tokenizer within a manifest line.
#[derive(Debug, Clone, Copy, PartialEq, Eq, Structural)]
pub enum ParseState {
    Rest,
    Type,
    Key,
    Value,
    ValueQuoted,
    ValueQuotedSpace,
    ValueUnquoted,
}

/// Complete tokenizer configuration: position plus every accumulator.
pub struct LineSt {
    pub mode: ParseState,
    pub a: Seq<char>,
    pub k: Seq<char>,
    pub v: Seq<char>,
    pub bag: ValsModel,
    pub free: Seq<Seq<char>>,
    pub quote: char,
}

/// The tokenizer configuration before any character is read.
pub open spec fn line_init() -> LineSt {
    LineSt {
        mode: ParseState::Rest,
        a: Seq::empty(),
        k: Seq::empty(),
        v: Seq::empty(),
        bag: ValsModel { vals: Seq::empty(), extra: Seq::empty() },
        free: Seq::empty(),
        quote: '"',
    }
}

/// One character of tokenizer progress; `None` is a syntax error.
pub open spec fn line_step(st: LineSt, c: char) -> Option<LineSt> {
    match st.mode {
        ParseState::Rest => if spec_is_alpha(c) {
            Some(
                LineSt {
                    mode: ParseState::Type,
                    a: seq![c],
                    k: Seq::empty(),
                    v: Seq::empty(),
                    ..st
                },
            )
        } else {
            None
        },
        ParseState::Type => if spec_is_alpha(c) {
            Some(LineSt { a: st.a.push(c), ..st })
        } else if c == ' ' {
            Some(LineSt { mode: ParseState::Key, ..st })
        } else {
            None
        },
        ParseState::Key => if spec_is_key_char(c) {
            Some(LineSt { k: st.k.push(c), ..st })
        } else if c == ' ' {
            Some(LineSt { free: st.free.push(st.k), k: Seq::empty(), ..st })
        } else if c == '=' {
            Some(LineSt { mode: ParseState::Value, ..st })
        } else {
            None
        },
        ParseState::Value => if c == '"' || c == '\'' {
            Some(LineSt { mode: ParseState::ValueQuoted, v: Seq::empty(), quote: c, ..st })
        } else {
            Some(LineSt { mode: ParseState::ValueUnquoted, v: seq![c], ..st })
        },
        ParseState::ValueQuoted => if c == '\\' {
            None
        } else if c == st.quote {
            Some(LineSt { mode: ParseState::ValueQuotedSpace, ..st })
        } else {
            Some(LineSt { v: st.v.push(c), ..st })
        },
        ParseState::ValueQuotedSpace => if c == ' ' {
            Some(
                LineSt {
                    mode: ParseState::Key,
                    bag: spec_insert(st.bag, st.k, st.v),
                    k: Seq::empty(),
                    ..st
                },
            )
        } else {
            None
        },
        ParseState::ValueUnquoted => if c == '"' || c == '\'' {
            None
        } else if c == ' ' {
            Some(
                LineSt {
                    mode: ParseState::Key,
                    bag: spec_insert(st.bag, st.k, st.v),
                    k: Seq::empty(),
                    ..st
                },
            )
        } else {
            Some(LineSt { v: st.v.push(c), ..st })
        },
    }
}

/// The tokenizer configuration after reading all of `cs`, if no character
/// was a syntax error.
pub open spec fn run_line(cs: Seq<char>) -> Option<LineSt>
    decreases cs.len(),
{
    if cs.len() == 0 {
        Some(line_init())
    } else {
        match run_line(cs.drop_last()) {
            None => None,
            Some(st) => line_step(st, cs.last()),
        }
    }
}

/// End-of-line handling: only a bare action type or a completed value is an
/// acceptable final position; a trailing value is recorded.
pub open spec fn line_finish(st: LineSt) -> Option<(Seq<char>, Seq<Seq<char>>, ValsModel)> {
    match st.mode {
        ParseState::ValueQuotedSpace | ParseState::ValueUnquoted => Some(
            (st.a, st.free, spec_insert(st.bag, st.k, st.v)),
        ),
        ParseState::Type => Some((st.a, st.free, st.bag)),
        _ => None,
    }
}

/// Mathematical content of a `depend` action.
#[verifier::ext_equal]
pub struct ActionDependModel {
    pub fmri: Seq<Seq<char>>,
    pub type_: DependType,
    pub predicate: Seq<Seq<char>>,
    pub variant_zone: Option<Seq<char>>,
}

/// Mathematical content of a parsed manifest action.
pub enum ActionModel {
    Depend(ActionDependModel),
    Unknown(Seq<char>, Seq<Seq<char>>, ValsModel),
}

/// The tracked keys of a `depend` line left over once the typed accessors
/// have consumed theirs.
pub open spec fn depend_leftover(extra: Seq<Seq<char>>) -> Seq<Seq<char>> {
    remove_key(
        remove_key(remove_key(remove_key(extra, "fmri"@), "type"@), "predicate"@),
        "variant.opensolaris.zone"@,
    )
}

/// Strict interpretation of the property bag of a `depend` line.
pub open spec fn depend_model(bag: ValsModel) -> Result<ActionDependModel, ManifestError> {
    let fmris = values_for(bag.vals, "fmri"@);
    let types = values_for(bag.vals, "type"@);
    let preds = values_for(bag.vals, "predicate"@);
    let vzs = values_for(bag.vals, "variant.opensolaris.zone"@);
    if fmris.len() == 0 {
        Err(ManifestError::MissingProperty)
    } else if types.len() >= 2 {
        Err(ManifestError::MultipleValues)
    } else if types.len() == 0 {
        Err(ManifestError::MissingProperty)
    } else if spec_depend_type(types[0]) is None {
        Err(ManifestError::UnknownDependType)
    } else if vzs.len() >= 2 {
        Err(ManifestError::MultipleValues)
    } else if depend_leftover(bag.extra).len() > 0 {
        Err(ManifestError::ExtraProperties)
    } else {
        Ok(
            ActionDependModel {
                fmri: fmris,
                type_: spec_depend_type(types[0])->0,
                predicate: preds,
                variant_zone: if vzs.len() == 1 {
                    Some(vzs[0])
                } else {
                    None
                },
            },
        )
    }
}

/// The action denoted by one manifest line.
pub open spec fn line_model(cs: Seq<char>) -> Result<ActionModel, ManifestError> {
    match run_line(cs) {
        None => Err(ManifestError::BadLine),
        Some(st) => match line_finish(st) {
            None => Err(ManifestError::BadLine),
            Some((a, free, bag)) => if a == "depend"@ {
                match depend_model(bag) {
                    Ok(d) => Ok(ActionModel::Depend(d)),
                    Err(e) => Err(e),
                }
            } else {
                Ok(ActionModel::Unknown(a, free, bag))
            },
        },
    }
}

/// The actions denoted by a sequence of manifest lines; the first failing
/// line fails the whole manifest.
pub open spec fn lines_model(ls: Seq<Seq<char>>) -> Result<Seq<ActionModel>, ManifestError>
    decreases ls.len(),
{
    if ls.len() == 0 {
        Ok(Seq::empty())
    } else {
        match lines_model(ls.drop_last()) {
            Err(e) => Err(e),
            Ok(acc) => match line_model(ls.last()) {
                Err(e) => Err(e),
                Ok(a) => Ok(acc.push(a)),
            },
        }
    }
}

/// The actions denoted by a whole manifest text.
pub open spec fn manifest_model(text: Seq<char>) -> Result<Seq<ActionModel>, ManifestError> {
    lines_model(spec_lines(text))
}

/// A `depend` action: one or more target packages, the kind of the edge,
/// optional predicates and an optional zone-variant constraint.
#[derive(Debug)]
pub struct ActionDepend {
    fmri: Vec<String>,
    type_: DependType,
    predicate: Vec<String>,
    variant_zone: Option<String>,
}

impl View for ActionDepend {
    type V = ActionDependModel;

    closed spec fn view(&self) -> ActionDependModel {
        ActionDependModel {
            fmri: self.fmri.deep_view(),
            type_: self.type_,
            predicate: self.predicate.deep_view(),
            variant_zone: self.variant_zone.deep_view(),
        }
    }
}

impl ActionDepend {
    /// The target packages of this dependency edge.
    pub fn fmris(&self) -> (r: Vec<&str>)
        ensures
            r.deep_view() == self@.fmri,
    {
        let n: usize = self.fmri.len();
        let mut out: Vec<&str> = Vec::new();
        let mut i: usize = 0;
        proof {
            assert(out.deep_view() =~= self@.fmri.take(0));
        }
        while i < n
            invariant
                i <= n,
                n == self.fmri@.len(),
                out.deep_view() == self@.fmri.take(i as int),
            decreases n - i,
        {
            let ghost out0 = out.deep_view();
            out.push(self.fmri[i].as_str());
            proof {
                assert(out.deep_view() =~~= out0.push(self@.fmri[i as int]));
                assert(out.deep_view() =~= self@.fmri.take(i as int + 1));
            }
            i = i + 1;
        }
        proof {
            assert(self@.fmri.take(n as int) =~= self@.fmri);
        }
        out
    }

    /// The kind of this dependency edge.
    pub fn type_(&self) -> (r: DependType)
        ensures
            r == self@.type_,
    {
        self.type_
    }
}

/// One parsed manifest action: a strictly interpreted dependency, or any
/// other action captured generically.
#[derive(Debug)]
pub enum Action {
    Depend(ActionDepend),
    Unknown(String, Vec<String>, Vals),
}

impl View for Action {
    type V = ActionModel;

    open spec fn view(&self) -> ActionModel {
        match self {
            Action::Depend(d) => ActionModel::Depend(d@),
            Action::Unknown(a, free, bag) => ActionModel::Unknown(a@, free.deep_view(), bag@),
        }
    }
}

impl DeepView for Action {
    type V = ActionModel;

    open spec fn deep_view(&self) -> ActionModel {
        self.view()
    }
}

proof fn lemma_run_line_none_extends(cs: Seq<char>, i: int)
    requires
        0 <= i <= cs.len(),
        run_line(cs.take(i)) is None,
    ensures
        run_line(cs) is None,
    decreases cs.len() - i,
{
    if i == cs.len() {
        assert(cs.take(i) =~= cs);
    } else {
        assert(cs.take(i + 1).drop_last() =~= cs.take(i));
        lemma_run_line_none_extends(cs, i + 1);
    }
}

/// Parse one manifest line into an action.
fn parse_line(line: &Vec<char>) -> (r: Result<Action, ManifestError>)
    ensures
        match r {
            Ok(a) => line_model(line@) == Ok::<ActionModel, ManifestError>(a@),
            Err(e) => line_model(line@) == Err::<ActionModel, ManifestError>(e),
        },
{
    let n: usize = line.len();
    let mut mode = ParseState::Rest;
    let mut a: Vec<char> = Vec::new();
    let mut k: Vec<char> = Vec::new();
    let mut v: Vec<char> = Vec::new();
    let mut bag = Vals::new();
    let mut free: Vec<String> = Vec::new();
    let mut quote: char = '"';
    let mut i: usize = 0;
    proof {
        assert(line@.take(0) =~= Seq::<char>::empty());
        assert(a@ =~= Seq::<char>::empty());
        assert(k@ =~= Seq::<char>::empty());
        assert(v@ =~= Seq::<char>::empty());
        assert(free.deep_view() =~= Seq::<Seq<char>>::empty());
        assert(run_line(line@.take(0)) == Some(st_now(mode, a@, k@, v@, bag@, free.deep_view(), quote)));
    }
    while i < n
        invariant
            i <= n,
            n == line@.len(),
            run_line(line@.take(i as int)) == Some(
                st_now(mode, a@, k@, v@, bag@, free.deep_view(), quote),
            ),
        decreases n - i,
    {
        let c = line[i];
        let ghost prev = st_now(mode, a@, k@, v@, bag@, free.deep_view(), quote);
        proof {
            assert(line@.take(i as int + 1).drop_last() =~= line@.take(i as int));
            assert(line@.take(i as int + 1).last() == line@[i as int]);
        }
        match mode {
            ParseState::Rest => {
                if is_alpha_char(c) {
                    a.clear();
                    k.clear();
                    v.clear();
                    a.push(c);
                    mode = ParseState::Type;
                    assert(a@ =~= seq![c]);
                } else {
                    proof {
                        lemma_run_line_none_extends(line@, i as int + 1);
                    }
                    return Err(ManifestError::BadLine);
                }
            },
            ParseState::Type => {
                if is_alpha_char(c) {
                    a.push(c);
                } else if c == ' ' {
                    mode = ParseState::Key;
                } else {
                    proof {
                        lemma_run_line_none_extends(line@, i as int + 1);
                    }
                    return Err(ManifestError::BadLine);
                }
            },
            ParseState::Key => {
                if is_key_char(c) {
                    k.push(c);
                } else if c == ' ' {
                    let ghost free0 = free.deep_view();
                    free.push(string_from_chars(&k));
                    k.clear();
                    proof {
                        assert(free.deep_view() =~~= free0.push(prev.k));
                        assert(k@ =~= Seq::<char>::empty());
                    }
                } else if c == '=' {
                    mode = ParseState::Value;
                } else {
                    proof {
                        lemma_run_line_none_extends(line@, i as int + 1);
                    }
                    return Err(ManifestError::BadLine);
                }
            },
            ParseState::Value => {
                v.clear();
                if c == '"' || c == '\'' {
                    quote = c;
                    mode = ParseState::ValueQuoted;
                    assert(v@ =~= Seq::<char>::empty());
                } else {
                    mode = ParseState::ValueUnquoted;
                    v.push(c);
                    assert(v@ =~= seq![c]);
                }
            },
            ParseState::ValueQuoted => {
                if c == '\\' {
                    proof {
                        lemma_run_line_none_extends(line@, i as int + 1);
                    }
                    return Err(ManifestError::BadLine);
                } else if c == quote {
                    mode = ParseState::ValueQuotedSpace;
                } else {
                    v.push(c);
                }
            },
            ParseState::ValueQuotedSpace => {
                if c == ' ' {
                    let ks = string_from_chars(&k);
                    let vs = string_from_chars(&v);
                    bag.insert(ks.as_str(), vs.as_str());
                    mode = ParseState::Key;
                    k.clear();
                    assert(k@ =~= Seq::<char>::empty());
                } else {
                    proof {
                        lemma_run_line_none_extends(line@, i as int + 1);
                    }
                    return Err(ManifestError::BadLine);
                }
            },
            ParseState::ValueUnquoted => {
                if c == '"' || c == '\'' {
                    proof {
                        lemma_run_line_none_extends(line@, i as int + 1);
                    }
                    return Err(ManifestError::BadLine);
                } else if c == ' ' {
                    let ks = string_from_chars(&k);
                    let vs = string_from_chars(&v);
                    bag.insert(ks.as_str(), vs.as_str());
                    mode = ParseState::Key;
                    k.clear();
                    assert(k@ =~= Seq::<char>::empty());
                } else {
                    v.push(c);
                }
            },
        }
        proof {
            assert(line_step(prev, c) == Some(
                st_now(mode, a@, k@, v@, bag@, free.deep_view(), quote),
            ));
        }
        i = i + 1;
    }
    proof {
        assert(line@.take(n as int) =~= line@);
    }
    let ok_end = match mode {
        ParseState::ValueQuotedSpace | ParseState::ValueUnquoted => {
            let ks = string_from_chars(&k);
            let vs = string_from_chars(&v);
            bag.insert(ks.as_str(), vs.as_str());
            true
        },
        ParseState::Type => true,
        _ => false,
    };
    if !ok_end {
        return Err(ManifestError::BadLine);
    }
    let ghost fin = line_finish(run_line(line@)->0);
    assert(fin == Some((a@, free.deep_view(), bag@)));
    if chars_eq_str(&a, "depend") {
        let fmri = match bag.list("fmri") {
            Ok(x) => x,
            Err(e) => {
                return Err(e);
            },
        };
        let type_s = match bag.single("type") {
            Ok(x) => x,
            Err(e) => {
                return Err(e);
            },
        };
        let type_ = match DependType::parse(type_s.as_str()) {
            Ok(x) => x,
            Err(e) => {
                return Err(e);
            },
        };
        let predicate = match bag.maybe_list("predicate") {
            Ok(x) => x,
            Err(e) => {
                return Err(e);
            },
        };
        let variant_zone = match bag.maybe_single("variant.opensolaris.zone") {
            Ok(x) => x,
            Err(e) => {
                return Err(e);
            },
        };
        if let Err(e) = bag.check_for_extra() {
            return Err(e);
        }
        let act = ActionDepend { fmri, type_, predicate, variant_zone };
        assert(act@ == depend_model((fin->0).2)->Ok_0);
        Ok(Action::Depend(act))
    } else {
        let name = string_from_chars(&a);
        Ok(Action::Unknown(name, free, bag))
    }
}


proof fn lemma_lines_model_err_persists(ls: Seq<Seq<char>>, i: int)
    requires
        0 <= i <= ls.len(),
        lines_model(ls.take(i)) is Err,
    ensures
        lines_model(ls) == lines_model(ls.take(i)),
    decreases ls.len() - i,
{
    if i == ls.len() {
        assert(ls.take(i) =~= ls);
    } else {
        assert(ls.take(i + 1).drop_last() =~= ls.take(i));
        lemma_lines_model_err_persists(ls, i + 1);
    }
}

proof fn lemma_lines_model_err(ls: Seq<Seq<char>>, i: int, e: ManifestError)
    requires
        0 <= i < ls.len(),
        lines_model(ls.take(i)) is Ok,
        line_model(ls[i]) == Err::<ActionModel, ManifestError>(e),
    ensures
        lines_model(ls) == Err::<Seq<ActionModel>, ManifestError>(e),
{
    assert(ls.take(i + 1).drop_last() =~= ls.take(i));
    assert(ls.take(i + 1).last() == ls[i]);
    assert(lines_model(ls.take(i + 1)) == Err::<Seq<ActionModel>, ManifestError>(e));
    lemma_lines_model_err_persists(ls, i + 1);
}

/// Parse a whole manifest: one action per line, a failure on any line
/// failing the whole manifest with that line's error.
pub fn parse_manifest(input: &str) -> (r: Result<Vec<Action>, ManifestError>)
    ensures
        match r {
            Ok(v) => manifest_model(input@) == Ok::<Seq<ActionModel>, ManifestError>(
                v.deep_view(),
            ),
            Err(e) => manifest_model(input@) == Err::<Seq<ActionModel>, ManifestError>(e),
        },
{
    let cs = chars_of(input);
    let lines = split_lines(&cs);
    let ghost ls = spec_lines(input@);
    let n: usize = lines.len();
    let mut out: Vec<Action> = Vec::new();
    let mut i: usize = 0;
    proof {
        assert(lines.deep_view().len() == lines@.len());
        assert(ls.take(0) =~= Seq::<Seq<char>>::empty());
        assert(out.deep_view() =~= Seq::<ActionModel>::empty());
    }
    while i < n
        invariant
            i <= n,
            n == lines@.len(),
            lines.deep_view() == ls,
            ls == spec_lines(input@),
            lines_model(ls.take(i as int)) == Ok::<Seq<ActionModel>, ManifestError>(
                out.deep_view(),
            ),
        decreases n - i,
    {
        proof {
            assert(lines.deep_view()[i as int] == lines@[i as int].deep_view());
            assert(lines@[i as int].deep_view() =~= lines@[i as int]@);
            assert(ls[i as int] == lines@[i as int]@);
            assert(ls.take(i as int + 1).drop_last() =~= ls.take(i as int));
            assert(ls.take(i as int + 1).last() == ls[i as int]);
        }
        match parse_line(&lines[i]) {
            Ok(act) => {
                let ghost out0 = out.deep_view();
                out.push(act);
                proof {
                    assert(out.deep_view() =~~= out0.push(act@));
                }
            },
            Err(e) => {
                proof {
                    lemma_lines_model_err(ls, i as int, e);
                }
                return Err(e);
            },
        }
        i = i + 1;
    }
    proof {
        assert(ls.take(n as int) =~= ls);
    }
    Ok(out)
}

/// The strict schema law: a `depend` line that carries any property beyond
/// the recognized ones — whatever else it holds — is rejected with a parse
/// error, never silently accepted.
pub proof fn lemma_strict_schema(cs: Seq<char>)
    requires
        run_line(cs) is Some,
        line_finish(run_line(cs)->0) is Some,
        (line_finish(run_line(cs)->0)->0).0 == "depend"@,
        depend_leftover((line_finish(run_line(cs)->0)->0).2.extra).len() > 0,
    ensures
        line_model(cs) is Err,
{
}

/// Constructor of a tokenizer configuration from its pieces.
pub open spec fn st_now(
    mode: ParseState,
    a: Seq<char>,
    k: Seq<char>,
    v: Seq<char>,
    bag: ValsModel,
    free: Seq<Seq<char>>,
    quote: char,
) -> LineSt {
    LineSt { mode, a, k, v, bag, free, quote }
}

} // verus!
