//! Shell-style template expansion used by configuration files:
//! `${variable}` expands to the variable's value (an error when unset) and
//! `${variable?literal}` expands to the literal exactly when the variable
//! is set.  `$$` is a literal dollar sign; nothing nests.

use vstd::prelude::*;

use crate::spec_lookup;
use crate::text::{append_chars, chars_of, string_from_chars};
use crate::Bindings;

verus! {

/// Errors of template parsing and evaluation.
#[derive(Debug, Clone, Copy, PartialEq, Eq, Structural)]
pub enum ExpandError {
    /// An expansion names no variable at all.
    EmptyVariable,
    /// A character that cannot appear in a variable name.
    InvalidVariableChar,
    /// A `$` followed by something other than `$` or `{`.
    InvalidAfterDollar,
    /// The template ends directly after a `$`.
    EndAfterDollar,
    /// A `$` inside an expansion; expansions do not nest.
    NestedExpansion,
    /// The template ends inside an unclosed `${`.
    UnterminatedExpansion,
    /// Evaluation met a variable with no binding.
    UndefinedVariable,
}

/// A character allowed in a variable name.
pub open spec fn spec_is_variable_char(c: char) -> bool {
    ||| ('a' <= c && c <= 'z')
    ||| ('A' <= c && c <= 'Z')
    ||| ('0' <= c && c <= '9')
    ||| c == '-'
    ||| c == '_'
}

fn is_variable_char(c: char) -> (r: bool)
    ensures
        r == spec_is_variable_char(c),
{
    ('a' <= c && c <= 'z') || ('A' <= c && c <= 'Z') || ('0' <= c && c <= '9') || c == '-'
        || c == '_'
}

/// One piece of a parsed template.
pub enum ChunkModel {
    /// Literal text, passed through unchanged.
    Char(Seq<char>),
    /// `${variable}`: the variable's value, required to be set.
    Simple(Seq<char>),
    /// `${variable?literal}`: the literal when the variable is set.
    IfLiteral(Seq<char>, Seq<char>),
}

/// The meaning of the text between `${` and `}`: a bare variable name, or
/// a name and a conditional literal separated by the first `?`.
pub open spec fn expand_model(s: Seq<char>) -> Result<ChunkModel, ExpandError> {
    let q = crate::text::first_idx(s, '?');
    if exists|j: int| 0 <= j < q && !spec_is_variable_char(#[trigger] s[j]) {
        Err(ExpandError::InvalidVariableChar)
    } else if q == 0 {
        Err(ExpandError::EmptyVariable)
    } else if q == s.len() {
        Ok(ChunkModel::Simple(s))
    } else {
        Ok(ChunkModel::IfLiteral(s.take(q), s.skip(q + 1)))
    }
}

/// One piece of a parsed template, executable form.
#[derive(Debug)]
pub enum Chunk {
    Char(String),
    Simple(String),
    IfLiteral(String, String),
}

impl View for Chunk {
    type V = ChunkModel;

    open spec fn view(&self) -> ChunkModel {
        match self {
            Chunk::Char(t) => ChunkModel::Char(t@),
            Chunk::Simple(v) => ChunkModel::Simple(v@),
            Chunk::IfLiteral(v, l) => ChunkModel::IfLiteral(v@, l@),
        }
    }
}

impl DeepView for Chunk {
    type V = ChunkModel;

    open spec fn deep_view(&self) -> ChunkModel {
        self.view()
    }
}

/// Interpret the inside of one `${...}` expansion.
fn expand(text: &Vec<char>) -> (r: Result<Chunk, ExpandError>)
    ensures
        match r {
            Ok(ch) => expand_model(text@) == Ok::<ChunkModel, ExpandError>(ch@),
            Err(e) => expand_model(text@) == Err::<ChunkModel, ExpandError>(e),
        },
{
    let n: usize = text.len();
    let mut i: usize = 0;
    while i < n && text[i] != '?'
        invariant
            i <= n,
            n == text@.len(),
            forall|j: int| 0 <= j < i ==> text@[j] != '?',
        ensures
            i <= n,
            forall|j: int| 0 <= j < i ==> text@[j] != '?',
            i < n ==> text@[i as int] == '?',
        decreases n - i,
    {
        i = i + 1;
    }
    let ghost q = crate::text::first_idx(text@, '?');
    proof {
        crate::text::lemma_first_idx_bounds(text@, '?');
        if i < n {
            assert(q == i as int);
        } else {
            assert(q == n as int);
        }
    }
    let mut j: usize = 0;
    while j < i
        invariant
            j <= i <= n,
            n == text@.len(),
            i as int == q,
            q == crate::text::first_idx(text@, '?'),
            forall|k: int| 0 <= k < j ==> spec_is_variable_char(#[trigger] text@[k]),
        decreases i - j,
    {
        if !is_variable_char(text[j]) {
            return Err(ExpandError::InvalidVariableChar);
        }
        j = j + 1;
    }
    if i == 0 {
        return Err(ExpandError::EmptyVariable);
    }
    if i == n {
        let mut v: Vec<char> = Vec::new();
        let mut k: usize = 0;
        while k < n
            invariant
                k <= n,
                n == text@.len(),
                v@ == text@.take(k as int),
            decreases n - k,
        {
            v.push(text[k]);
            proof {
                assert(v@ =~= text@.take(k as int + 1));
            }
            k = k + 1;
        }
        proof {
            assert(text@.take(n as int) =~= text@);
        }
        return Ok(Chunk::Simple(string_from_chars(&v)));
    }
    let mut v: Vec<char> = Vec::new();
    let mut k: usize = 0;
    while k < i
        invariant
            k <= i <= n,
            n == text@.len(),
            v@ == text@.take(k as int),
        decreases i - k,
    {
        v.push(text[k]);
        proof {
            assert(v@ =~= text@.take(k as int + 1));
        }
        k = k + 1;
    }
    let mut l: Vec<char> = Vec::new();
    let mut k: usize = i + 1;
    proof {
        assert(l@ =~= text@.subrange(i as int + 1, i as int + 1));
    }
    while k < n
        invariant
            i + 1 <= k <= n,
            n == text@.len(),
            l@ == text@.subrange(i as int + 1, k as int),
        decreases n - k,
    {
        l.push(text[k]);
        proof {
            assert(l@ =~= text@.subrange(i as int + 1, k as int + 1));
        }
        k = k + 1;
    }
    proof {
        assert(text@.subrange(i as int + 1, n as int) =~= text@.skip(i as int + 1));
    }
    Ok(Chunk::IfLiteral(string_from_chars(&v), string_from_chars(&l)))
}

/// Position of the template parser.
#[derive(Debug, Clone, Copy, PartialEq, Eq, Structural)]
pub enum TemplateState {
    Rest,
    Dollar,
    Inside,
}

/// Complete template-parser configuration.
pub struct TemplateSt {
    pub mode: TemplateState,
    pub exp: Seq<char>,
    pub chunks: Seq<ChunkModel>,
}

/// The parser configuration before any character is read.
pub open spec fn template_init() -> TemplateSt {
    TemplateSt { mode: TemplateState::Rest, exp: Seq::empty(), chunks: Seq::empty() }
}

/// One character of template-parser progress.
pub open spec fn template_step(st: TemplateSt, c: char) -> Result<TemplateSt, ExpandError> {
    match st.mode {
        TemplateState::Rest => if c == '$' {
            Ok(TemplateSt { mode: TemplateState::Dollar, ..st })
        } else {
            Ok(TemplateSt { chunks: st.chunks.push(ChunkModel::Char(seq![c])), ..st })
        },
        TemplateState::Dollar => if c == '$' {
            Ok(
                TemplateSt {
                    mode: TemplateState::Rest,
                    chunks: st.chunks.push(ChunkModel::Char(seq!['$'])),
                    ..st
                },
            )
        } else if c == '{' {
            Ok(TemplateSt { mode: TemplateState::Inside, ..st })
        } else {
            Err(ExpandError::InvalidAfterDollar)
        },
        TemplateState::Inside => if c == '}' {
            match expand_model(st.exp) {
                Ok(ch) => Ok(
                    TemplateSt {
                        mode: TemplateState::Rest,
                        exp: Seq::empty(),
                        chunks: st.chunks.push(ch),
                    },
                ),
                Err(e) => Err(e),
            }
        } else if c == '$' {
            Err(ExpandError::NestedExpansion)
        } else {
            Ok(TemplateSt { exp: st.exp.push(c), ..st })
        },
    }
}

/// The parser configuration after reading all of `cs`.
pub open spec fn template_run(cs: Seq<char>) -> Result<TemplateSt, ExpandError>
    decreases cs.len(),
{
    if cs.len() == 0 {
        Ok(template_init())
    } else {
        match template_run(cs.drop_last()) {
            Err(e) => Err(e),
            Ok(st) => template_step(st, cs.last()),
        }
    }
}

/// The chunks a whole template denotes.
pub open spec fn template_model(cs: Seq<char>) -> Result<Seq<ChunkModel>, ExpandError> {
    match template_run(cs) {
        Err(e) => Err(e),
        Ok(st) => match st.mode {
            TemplateState::Rest => Ok(st.chunks),
            TemplateState::Dollar => Err(ExpandError::EndAfterDollar),
            TemplateState::Inside => Err(ExpandError::UnterminatedExpansion),
        },
    }
}

/// A parsed template, ready to evaluate against variable bindings.
#[derive(Debug)]
pub struct Expansion {
    chunks: Vec<Chunk>,
}

impl View for Expansion {
    type V = Seq<ChunkModel>;

    closed spec fn view(&self) -> Seq<ChunkModel> {
        self.chunks.deep_view()
    }
}

proof fn lemma_template_run_err_extends(cs: Seq<char>, i: int)
    requires
        0 <= i <= cs.len(),
        template_run(cs.take(i)) is Err,
    ensures
        template_run(cs) == template_run(cs.take(i)),
    decreases cs.len() - i,
{
    if i == cs.len() {
        assert(cs.take(i) =~= cs);
    } else {
        assert(cs.take(i + 1).drop_last() =~= cs.take(i));
        lemma_template_run_err_extends(cs, i + 1);
    }
}

impl Expansion {
    /// Parse a template into chunks.
    pub fn parse(template: &str) -> (r: Result<Expansion, ExpandError>)
        ensures
            match r {
                Ok(x) => template_model(template@) == Ok::<Seq<ChunkModel>, ExpandError>(x@),
                Err(e) => template_model(template@) == Err::<Seq<ChunkModel>, ExpandError>(e),
            },
    {
        let cs = chars_of(template);
        let n: usize = cs.len();
        let mut mode = TemplateState::Rest;
        let mut exp: Vec<char> = Vec::new();
        let mut chunks: Vec<Chunk> = Vec::new();
        let mut i: usize = 0;
        proof {
            assert(cs@.take(0) =~= Seq::<char>::empty());
            assert(exp@ =~= Seq::<char>::empty());
            assert(chunks.deep_view() =~= Seq::<ChunkModel>::empty());
            assert(template_run(cs@.take(0)) == Ok::<TemplateSt, ExpandError>(
                TemplateSt { mode, exp: exp@, chunks: chunks.deep_view() },
            ));
        }
        while i < n
            invariant
                i <= n,
                n == cs@.len(),
                cs@ == template@,
                template_run(cs@.take(i as int)) == Ok::<TemplateSt, ExpandError>(
                    (TemplateSt { mode, exp: exp@, chunks: chunks.deep_view() }),
                ),
            decreases n - i,
        {
            let c = cs[i];
            let m0 = mode;
            let ghost prev = TemplateSt { mode, exp: exp@, chunks: chunks.deep_view() };
            proof {
                assert(cs@.take(i as int + 1).drop_last() =~= cs@.take(i as int));
                assert(cs@.take(i as int + 1).last() == cs@[i as int]);
            }
            match m0 {
                TemplateState::Rest => {
                    if c == '$' {
                        mode = TemplateState::Dollar;
                    } else {
                        let ghost ck0 = chunks.deep_view();
                        let mut one: Vec<char> = Vec::new();
                        one.push(c);
                        proof {
                            assert(one@ =~= seq![c]);
                        }
                        chunks.push(Chunk::Char(string_from_chars(&one)));
                        proof {
                            assert(chunks.deep_view() =~~= ck0.push(ChunkModel::Char(seq![c])));
                        }
                    }
                },
                TemplateState::Dollar => {
                    if c == '$' {
                        let ghost ck0 = chunks.deep_view();
                        let mut one: Vec<char> = Vec::new();
                        one.push('$');
                        proof {
                            assert(one@ =~= seq!['$']);
                        }
                        chunks.push(Chunk::Char(string_from_chars(&one)));
                        mode = TemplateState::Rest;
                        proof {
                            assert(chunks.deep_view() =~~= ck0.push(ChunkModel::Char(seq!['$'])));
                        }
                    } else if c == '{' {
                        mode = TemplateState::Inside;
                    } else {
                        proof {
                            lemma_template_run_err_extends(cs@, i as int + 1);
                        }
                        return Err(ExpandError::InvalidAfterDollar);
                    }
                },
                TemplateState::Inside => {
                    if c == '}' {
                        match expand(&exp) {
                            Ok(ch) => {
                                let ghost ck0 = chunks.deep_view();
                                chunks.push(ch);
                                exp = Vec::new();
                                mode = TemplateState::Rest;
                                proof {
                                    assert(chunks.deep_view() =~~= ck0.push(
                                        expand_model(prev.exp)->Ok_0,
                                    ));
                                    assert(exp@ =~= Seq::<char>::empty());
                                }
                            },
                            Err(e) => {
                                proof {
                                    lemma_template_run_err_extends(cs@, i as int + 1);
                                }
                                return Err(e);
                            },
                        }
                    } else if c == '$' {
                        proof {
                            lemma_template_run_err_extends(cs@, i as int + 1);
                        }
                        return Err(ExpandError::NestedExpansion);
                    } else {
                        exp.push(c);
                    }
                },
            }
            proof {
                assert(template_step(prev, c) == Ok::<TemplateSt, ExpandError>(
                    TemplateSt { mode, exp: exp@, chunks: chunks.deep_view() },
                ));
            }
            i = i + 1;
        }
        proof {
            assert(cs@.take(n as int) =~= cs@);
        }
        match mode {
            TemplateState::Rest => Ok(Expansion { chunks }),
            TemplateState::Dollar => Err(ExpandError::EndAfterDollar),
            TemplateState::Inside => Err(ExpandError::UnterminatedExpansion),
        }
    }

    /// Evaluate the template against variable bindings: characters pass
    /// through, `${v}` demands a value, `${v?lit}` contributes the literal
    /// exactly when `v` is bound.
    pub fn evaluate(&self, variables: &Bindings) -> (r: Result<String, ExpandError>)
        ensures
            match r {
                Ok(s) => eval_model(self@, variables@) == Ok::<Seq<char>, ExpandError>(s@),
                Err(e) => eval_model(self@, variables@) == Err::<Seq<char>, ExpandError>(e),
            },
    {
        let mut out: Vec<char> = Vec::new();
        let n: usize = self.chunks.len();
        let mut i: usize = 0;
        proof {
            assert(self@.take(0) =~= Seq::<ChunkModel>::empty());
            assert(out@ =~= Seq::<char>::empty());
        }
        while i < n
            invariant
                i <= n,
                n == self.chunks@.len(),
                eval_model(self@.take(i as int), variables@) == Ok::<Seq<char>, ExpandError>(
                    out@,
                ),
            decreases n - i,
        {
            proof {
                assert(self@.take(i as int + 1).drop_last() =~= self@.take(i as int));
                assert(self@.take(i as int + 1).last() == self@[i as int]);
                assert(self@[i as int] == self.chunks@[i as int].deep_view());
            }
            match &self.chunks[i] {
                Chunk::Char(t) => {
                    append_chars(&mut out, t.as_str());
                },
                Chunk::Simple(f) => {
                    match variables.get(f.as_str()) {
                        Some(v) => {
                            append_chars(&mut out, v.as_str());
                        },
                        None => {
                            proof {
                                lemma_eval_err_extends(self@, variables@, i as int + 1);
                            }
                            return Err(ExpandError::UndefinedVariable);
                        },
                    }
                },
                Chunk::IfLiteral(f, l) => {
                    if variables.contains_key(f.as_str()) {
                        append_chars(&mut out, l.as_str());
                    }
                },
            }
            i = i + 1;
        }
        proof {
            assert(self@.take(n as int) =~= self@);
        }
        Ok(string_from_chars(&out))
    }
}

/// The text a chunk sequence evaluates to under the given bindings.
pub open spec fn eval_model(
    chunks: Seq<ChunkModel>,
    vars: Seq<(Seq<char>, Seq<char>)>,
) -> Result<Seq<char>, ExpandError>
    decreases chunks.len(),
{
    if chunks.len() == 0 {
        Ok(Seq::empty())
    } else {
        match eval_model(chunks.drop_last(), vars) {
            Err(e) => Err(e),
            Ok(acc) => match chunks.last() {
                ChunkModel::Char(t) => Ok(acc + t),
                ChunkModel::Simple(f) => match spec_lookup(vars, f) {
                    Some(v) => Ok(acc + v),
                    None => Err(ExpandError::UndefinedVariable),
                },
                ChunkModel::IfLiteral(f, l) => if spec_lookup(vars, f) is Some {
                    Ok(acc + l)
                } else {
                    Ok(acc)
                },
            },
        }
    }
}

proof fn lemma_eval_err_extends(
    chunks: Seq<ChunkModel>,
    vars: Seq<(Seq<char>, Seq<char>)>,
    i: int,
)
    requires
        0 <= i <= chunks.len(),
        eval_model(chunks.take(i), vars) is Err,
    ensures
        eval_model(chunks, vars) == eval_model(chunks.take(i), vars),
    decreases chunks.len() - i,
{
    if i == chunks.len() {
        assert(chunks.take(i) =~= chunks);
    } else {
        assert(chunks.take(i + 1).drop_last() =~= chunks.take(i));
        lemma_eval_err_extends(chunks, vars, i + 1);
    }
}

} // verus!
