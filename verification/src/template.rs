//! The template language: hierarchical variables, contexts that bind
//! them to string values, and rendering of template strings.

pub mod parse;

use vstd::prelude::*;
use crate::strutil::{spec_split, split_str};
use crate::template::parse::{
    spec_tokenize, token_models, tokenize, Token, TokenModel,
};

verus! {

/// A hierarchical variable name: an ordered sequence of name segments
/// (for example `config.t1`). Equality and ordering are segment-wise.
#[derive(Debug, Clone, PartialEq, Eq, Hash, PartialOrd, Ord)]
pub struct Variable {
    segments: Vec<String>,
}

impl View for Variable {
    type V = Seq<Seq<char>>;

    closed spec fn view(&self) -> Seq<Seq<char>> {
        self.segments.deep_view()
    }
}

impl Variable {
    /// Builds a variable directly from its segments.
    pub fn new(segments: Vec<String>) -> (r: Self)
        ensures
            r@ == segments.deep_view(),
    {
        Variable { segments }
    }

    /// Parses a dotted name such as `config.t1` into its segments.
    pub fn from_str(s: &str) -> (r: Self)
        ensures
            r@ == spec_split(s@, '.'),
    {
        let vars = split_str(s, '.');
        Self::new(vars)
    }

    /// A variable with a single segment.
    pub fn single(name: String) -> (r: Self)
        ensures
            r@ =~= seq![name@],
    {
        let segments = vec![name];
        Variable { segments }
    }

    /// The variable extended with one further segment.
    pub fn with_child(&self, child: &str) -> (r: Self)
        ensures
            r@ =~= self@.push(child@),
    {
        let mut me = self.duplicate();
        me.segments.push(child.to_owned());
        proof {
            assert(me.segments.deep_view() =~= self@.push(child@));
        }
        me
    }

    /// The concatenation of two variables: `other`'s segments are
    /// appended below `self`'s namespace.
    pub fn join(self, other: Self) -> (r: Self)
        ensures
            r@ =~= self@ + other@,
    {
        let mut me = self;
        let ghost a = me.segments.deep_view();
        let ghost b = other.segments.deep_view();
        let mut rest = other;
        me.segments.append(&mut rest.segments);
        proof {
            assert(me.segments.deep_view() =~= a + b);
        }
        me
    }

    /// An exact copy.
    pub fn duplicate(&self) -> (r: Self)
        ensures
            r@ == self@,
    {
        let mut segments: Vec<String> = Vec::new();
        let n = self.segments.len();
        let mut i: usize = 0;
        while i < n
            invariant
                n == self.segments.len(),
                i <= n,
                segments.deep_view() == self.segments.deep_view().take(i as int),
            decreases n - i,
        {
            let elem: &String = &self.segments[i];
            let copy = elem.clone();
            proof {
                assert(copy@ == self.segments@[i as int]@);
                assert(self.segments.deep_view()[i as int] == self.segments@[i as int]@);
            }
            let ghost old_dv = segments.deep_view();
            let ghost cv = copy@;
            segments.push(copy);
            proof {
                assert(segments.deep_view() =~= old_dv.push(cv));
                assert(segments.deep_view() =~= self.segments.deep_view().take(i + 1));
            }
            i = i + 1;
        }
        proof {
            assert(segments.deep_view() =~= self.segments.deep_view());
        }
        Variable { segments }
    }

    /// The dotted rendering of the variable, segments joined with
    /// `.`.
    pub fn to_dotted(&self) -> (r: String)
        ensures
            r@ == spec_join_with(self@, '.'),
    {
        let n = self.segments.len();
        let mut out = String::new();
        let mut i: usize = 0;
        proof {
            assert(self@.take(0) =~= Seq::<Seq<char>>::empty());
        }
        while i < n
            invariant
                n == self.segments@.len(),
                n == self@.len(),
                i <= n,
                i == 0 ==> out@ =~= Seq::<char>::empty(),
                i >= 1 ==> out@ == spec_join_with(self@.take(i as int), '.'),
            decreases n - i,
        {
            if i > 0 {
                out.push('.');
            }
            out.append(self.segments[i].as_str());
            proof {
                assert(self@[i as int] == self.segments@[i as int]@);
                assert(self@.take(i + 1).drop_last() =~= self@.take(i as int));
                assert(self@.take(i + 1).last() == self@[i as int]);
                if i == 0 {
                    assert(out@ =~= self@[0]);
                } else {
                    assert(out@ =~= spec_join_with(self@.take(i as int), '.') + seq!['.']
                        + self@[i as int]);
                }
            }
            i = i + 1;
        }
        proof {
            assert(self@.take(n as int) =~= self@);
            if n == 0 {
                assert(out@ =~= spec_join_with(self@, '.'));
            }
        }
        out
    }

    /// Whether two variables name the same hierarchical key.
    pub fn same_as(&self, other: &Self) -> (r: bool)
        ensures
            r == (self@ == other@),
    {
        let n = self.segments.len();
        if n != other.segments.len() {
            proof {
                assert(self@.len() != other@.len());
            }
            return false;
        }
        let mut i: usize = 0;
        while i < n
            invariant
                n == self.segments.len(),
                n == other.segments.len(),
                i <= n,
                forall|j: int| 0 <= j < i ==> self@[j] == other@[j],
            decreases n - i,
        {
            let same = self.segments[i].eq(&other.segments[i]);
            proof {
                assert(self@[i as int] == self.segments@[i as int]@);
                assert(other@[i as int] == other.segments@[i as int]@);
            }
            if !same {
                return false;
            }
            i = i + 1;
        }
        proof {
            assert(self@ =~= other@);
        }
        true
    }
}

/// Segments joined with a separator character: nothing for no
/// segments, otherwise the segments with the separator between each
/// pair.
pub open spec fn spec_join_with(parts: Seq<Seq<char>>, sep: char) -> Seq<char>
    decreases parts.len(),
{
    if parts.len() == 0 {
        Seq::empty()
    } else if parts.len() == 1 {
        parts[0]
    } else {
        spec_join_with(parts.drop_last(), sep) + seq![sep] + parts.last()
    }
}

/// Spec-level image of a rendering failure.
pub enum ErrorModel {
    /// Tokenization failed; the payload is the empty-segment offset.
    Parse(int),
    /// A referenced variable was not bound; the payload is its name.
    Unmatched(Seq<Seq<char>>),
}

/// A failure while rendering a template.
#[derive(Debug, Clone, PartialEq, Eq)]
pub enum Error {
    /// The template itself was malformed.
    Parse(parse::Error),
    /// The template referenced a variable the context does not bind.
    UnmatchedVariable { var: Variable },
}

impl View for Error {
    type V = ErrorModel;

    open spec fn view(&self) -> ErrorModel {
        match self {
            Error::Parse(e) => ErrorModel::Parse(e@),
            Error::UnmatchedVariable { var } => ErrorModel::Unmatched(var@),
        }
    }
}

impl Error {
    /// A human-readable description of the failure.
    pub fn describe(&self) -> (r: String)
        ensures
            match self {
                Error::Parse(_) => r@ == "variable segment is empty"@,
                Error::UnmatchedVariable { var } => r@ == "unknown variable: "@ + spec_join_with(
                    var@,
                    '.',
                ),
            },
    {
        match self {
            Error::Parse(_) => "variable segment is empty".to_owned(),
            Error::UnmatchedVariable { var } => {
                let mut out = "unknown variable: ".to_owned();
                let dotted = var.to_dotted();
                out.append(dotted.as_str());
                out
            },
        }
    }
}

/// A string that must be passed through the template engine before
/// use.
#[derive(Debug, Clone, PartialEq, Eq, Hash, PartialOrd, Ord)]
pub struct Templated {
    raw: String,
}

impl View for Templated {
    type V = Seq<char>;

    closed spec fn view(&self) -> Seq<char> {
        self.raw@
    }
}

impl Templated {
    /// Wraps a raw, not yet rendered string.
    pub fn new(val: String) -> (r: Self)
        ensures
            r@ == val@,
    {
        Templated { raw: val }
    }

    /// Renders the wrapped string against a context.
    pub fn render(&self, engine: &Context) -> (r: Result<String, Error>)
        ensures
            match r {
                Ok(s) => spec_render_str(engine@, self@) == Ok::<_, ErrorModel>(s@),
                Err(e) => spec_render_str(engine@, self@) == Err::<Seq<char>, _>(e@),
            },
    {
        engine.render(self.raw.as_str())
    }

    /// An exact copy.
    pub fn duplicate(&self) -> (r: Self)
        ensures
            r@ == self@,
    {
        Templated { raw: self.raw.clone() }
    }
}

/// The bindings of a context as a map from variable names to values.
/// A later entry overrides an earlier one for the same name.
pub open spec fn ctx_map_of(entries: Seq<(Seq<Seq<char>>, Seq<char>)>) -> Map<
    Seq<Seq<char>>,
    Seq<char>,
>
    decreases entries.len(),
{
    if entries.len() == 0 {
        Map::empty()
    } else {
        ctx_map_of(entries.drop_last()).insert(entries.last().0, entries.last().1)
    }
}

/// The spec-level image of a context's entry list.
pub open spec fn entry_models(entries: Seq<(Variable, String)>) -> Seq<
    (Seq<Seq<char>>, Seq<char>),
> {
    entries.map(|i: int, e: (Variable, String)| (e.0@, e.1@))
}

/// A mapping from variables to resolved string values. Contexts are
/// cloned per scope, so sibling scopes cannot see each other's local
/// definitions.
#[derive(Debug, Clone, PartialEq, Eq)]
pub struct Context {
    vars: Vec<(Variable, String)>,
}

impl View for Context {
    type V = Map<Seq<Seq<char>>, Seq<char>>;

    closed spec fn view(&self) -> Map<Seq<Seq<char>>, Seq<char>> {
        ctx_map_of(entry_models(self.vars@))
    }
}

/// What rendering a token sequence against bound variables yields: the
/// concatenation of literal runs and variable values, or the name of
/// the first variable the map does not bind.
pub open spec fn spec_render_tokens(
    m: Map<Seq<Seq<char>>, Seq<char>>,
    toks: Seq<TokenModel>,
) -> Result<Seq<char>, Seq<Seq<char>>>
    decreases toks.len(),
{
    if toks.len() == 0 {
        Ok(Seq::empty())
    } else {
        let rest = spec_render_tokens(m, toks.drop_first());
        match toks[0] {
            TokenModel::Str(s) => match rest {
                Ok(r) => Ok(s + r),
                Err(v) => Err(v),
            },
            TokenModel::Variable(name) => {
                if m.contains_key(name) {
                    match rest {
                        Ok(r) => Ok(m[name] + r),
                        Err(v) => Err(v),
                    }
                } else {
                    Err(name)
                }
            },
        }
    }
}

/// What rendering a whole template string yields: tokenization
/// followed by token rendering.
pub open spec fn spec_render_str(m: Map<Seq<Seq<char>>, Seq<char>>, s: Seq<char>) -> Result<
    Seq<char>,
    ErrorModel,
> {
    match spec_tokenize(s) {
        Err(off) => Err(ErrorModel::Parse(off)),
        Ok(toks) => match spec_render_tokens(m, toks) {
            Ok(o) => Ok(o),
            Err(v) => Err(ErrorModel::Unmatched(v)),
        },
    }
}

impl Default for Context {
    /// The empty context.
    fn default() -> (r: Self)
        ensures
            r@ == Map::<Seq<Seq<char>>, Seq<char>>::empty(),
    {
        Context::new()
    }
}

impl Context {
    /// The empty context.
    pub fn new() -> (r: Self)
        ensures
            r@ == Map::<Seq<Seq<char>>, Seq<char>>::empty(),
    {
        Context { vars: Vec::new() }
    }

    /// The context extended with one binding; an existing binding of
    /// the same variable is overridden.
    pub fn with_define(self, var: Variable, value: String) -> (r: Self)
        ensures
            r@ == self@.insert(var@, value@),
    {
        let mut me = self;
        me.define(var, value);
        me
    }

    /// Adds one binding; an existing binding of the same variable is
    /// overridden.
    pub fn define(&mut self, var: Variable, value: String)
        ensures
            final(self)@ == old(self)@.insert(var@, value@),
    {
        let ghost old_entries = entry_models(self.vars@);
        let ghost k = var@;
        let ghost v = value@;
        self.vars.push((var, value));
        proof {
            assert(entry_models(self.vars@) =~= old_entries.push((k, v)));
            assert(entry_models(self.vars@).drop_last() =~= old_entries);
        }
    }

    /// Looks a variable up.
    pub fn lookup<'a>(&'a self, var: &Variable) -> (r: Option<&'a String>)
        ensures
            match r {
                Some(v) => self@.contains_key(var@) && v@ == self@[var@],
                None => !self@.contains_key(var@),
            },
    {
        let n = self.vars.len();
        let mut i: usize = n;
        proof {
            assert(entry_models(self.vars@).take(n as int) =~= entry_models(self.vars@));
        }
        while i > 0
            invariant
                n == self.vars@.len(),
                i <= n,
                forall|j: int| i <= j < n ==> entry_models(self.vars@)[j].0 != var@,
                self@.contains_key(var@) == ctx_map_of(
                    entry_models(self.vars@).take(i as int),
                ).contains_key(var@),
                self@.contains_key(var@) ==> self@[var@] == ctx_map_of(
                    entry_models(self.vars@).take(i as int),
                )[var@],
            decreases i,
        {
            i = i - 1;
            let found = self.vars[i].0.same_as(var);
            proof {
                assert(entry_models(self.vars@)[i as int] == (
                    self.vars@[i as int].0@,
                    self.vars@[i as int].1@,
                ));
                assert(entry_models(self.vars@).take(i + 1).drop_last() =~= entry_models(
                    self.vars@,
                ).take(i as int));
                assert(entry_models(self.vars@).take(i + 1).last() == entry_models(
                    self.vars@,
                )[i as int]);
            }
            if found {
                return Some(&self.vars[i].1);
            }
        }
        proof {
            assert(entry_models(self.vars@).take(0) =~= Seq::<
                (Seq<Seq<char>>, Seq<char>),
            >::empty());
        }
        None
    }

    /// Renders a template string: every literal run is kept and every
    /// variable reference is replaced by the variable's value.
    pub fn render(&self, input: &str) -> (r: Result<String, Error>)
        ensures
            match r {
                Ok(s) => spec_render_str(self@, input@) == Ok::<_, ErrorModel>(s@),
                Err(e) => spec_render_str(self@, input@) == Err::<Seq<char>, _>(e@),
            },
    {
        let tokens = match tokenize(input) {
            Ok(t) => t,
            Err(e) => {
                return Err(Error::Parse(e));
            },
        };
        let ghost models = token_models(tokens@);
        let n = tokens.len();
        let mut out = String::new();
        let mut i: usize = 0;
        proof {
            assert(models.skip(0) =~= models);
        }
        while i < n
            invariant
                n == tokens@.len(),
                i <= n,
                models == token_models(tokens@),
                spec_tokenize(input@) == Ok::<_, int>(models),
                match spec_render_tokens(self@, models.skip(i as int)) {
                    Ok(s) => spec_render_tokens(self@, models) == Ok::<_, Seq<Seq<char>>>(
                        out@ + s,
                    ),
                    Err(v) => spec_render_tokens(self@, models) == Err::<Seq<char>, _>(v),
                },
            decreases n - i,
        {
            proof {
                assert(models.skip(i as int).drop_first() =~= models.skip(i + 1));
                assert(models.skip(i as int)[0] == models[i as int]);
            }
            let ghost old_out = out@;
            match &tokens[i] {
                Token::Str(s) => {
                    let ghost sv = s@;
                    out.append(s.as_str());
                    proof {
                        if spec_render_tokens(self@, models.skip(i + 1)) is Ok {
                            let r = spec_render_tokens(self@, models.skip(i + 1))->Ok_0;
                            assert(old_out + (sv + r) =~= out@ + r);
                        }
                    }
                },
                Token::Variable(v) => {
                    match self.lookup(v) {
                        Some(value) => {
                            let ghost sv = value@;
                            out.append(value.as_str());
                            proof {
                                if spec_render_tokens(self@, models.skip(i + 1)) is Ok {
                                    let r = spec_render_tokens(self@, models.skip(i + 1))->Ok_0;
                                    assert(old_out + (sv + r) =~= out@ + r);
                                }
                            }
                        },
                        None => {
                            return Err(Error::UnmatchedVariable { var: v.duplicate() });
                        },
                    }
                },
            }
            i = i + 1;
        }
        proof {
            assert(models.skip(n as int) =~= Seq::<TokenModel>::empty());
            assert(out@ + Seq::<char>::empty() =~= out@);
        }
        Ok(out)
    }

    /// An exact copy, as the per-scope clone: both the copy and the
    /// original see the bindings made so far, and later definitions in
    /// one are invisible to the other.
    pub fn duplicate(&self) -> (r: Self)
        ensures
            r@ == self@,
    {
        let n = self.vars.len();
        let mut vars: Vec<(Variable, String)> = Vec::new();
        let mut i: usize = 0;
        while i < n
            invariant
                n == self.vars@.len(),
                i <= n,
                entry_models(vars@) == entry_models(self.vars@).take(i as int),
            decreases n - i,
        {
            let ghost sofar = entry_models(vars@);
            let var = self.vars[i].0.duplicate();
            let value = self.vars[i].1.clone();
            let ghost kv = var@;
            let ghost vv = value@;
            vars.push((var, value));
            proof {
                assert(entry_models(self.vars@)[i as int] == (
                    self.vars@[i as int].0@,
                    self.vars@[i as int].1@,
                ));
                assert(entry_models(vars@) =~= sofar.push((kv, vv)));
                assert(entry_models(vars@) =~= entry_models(self.vars@).take(i + 1));
            }
            i = i + 1;
        }
        proof {
            assert(entry_models(self.vars@).take(n as int) =~= entry_models(self.vars@));
        }
        Context { vars }
    }

    /// Merges another context into this one; on a collision the other
    /// context's binding wins.
    pub fn append(&mut self, other: Self)
        ensures
            final(self)@ == old(self)@.union_prefer_right(other@),
    {
        let ghost a = entry_models(old(self).vars@);
        let ghost b = entry_models(other.vars@);
        let n = other.vars.len();
        let mut i: usize = 0;
        while i < n
            invariant
                n == other.vars@.len(),
                i <= n,
                b == entry_models(other.vars@),
                entry_models(self.vars@) == a + b.take(i as int),
            decreases n - i,
        {
            let ghost sofar = entry_models(self.vars@);
            let var = other.vars[i].0.duplicate();
            let value = other.vars[i].1.clone();
            let ghost k = var@;
            let ghost v = value@;
            self.vars.push((var, value));
            proof {
                assert(entry_models(self.vars@) =~= sofar.push((k, v)));
                assert(entry_models(self.vars@) =~= a + b.take(i + 1));
            }
            i = i + 1;
        }
        proof {
            assert(b.take(n as int) =~= b);
            lemma_ctx_map_concat(a, b);
        }
    }
}

/// The spec-level image of a list of named template definitions.
pub open spec fn definition_models(vars: Seq<(String, Templated)>) -> Seq<(Seq<char>, Seq<char>)> {
    vars.map(|i: int, e: (String, Templated)| (e.0@, e.1@))
}

/// What defining a list of scoped variables does to a context's map:
/// each definition's value is rendered against the map built so far
/// (so a definition can reference variables defined before it, but not
/// after it), and is then bound under the namespace-prefixed dotted
/// name. On a rendering failure the map built so far is kept and the
/// failure reported.
pub open spec fn spec_define_vars(
    m: Map<Seq<Seq<char>>, Seq<char>>,
    ns: Seq<Seq<char>>,
    vars: Seq<(Seq<char>, Seq<char>)>,
) -> Result<Map<Seq<Seq<char>>, Seq<char>>, (Map<Seq<Seq<char>>, Seq<char>>, ErrorModel)>
    decreases vars.len(),
{
    if vars.len() == 0 {
        Ok(m)
    } else {
        match spec_render_str(m, vars[0].1) {
            Err(e) => Err((m, e)),
            Ok(val) => spec_define_vars(
                m.insert(ns + spec_split(vars[0].0, '.'), val),
                ns,
                vars.drop_first(),
            ),
        }
    }
}

/// Defines a list of scoped variables in a context, in order. Each
/// value is rendered against the context as it stands when the
/// definition is reached, and bound under `namespace` joined with the
/// definition's dotted name.
pub fn define_variables(
    on: &mut Context,
    namespace: &Variable,
    vars: &Vec<(String, Templated)>,
) -> (r: Result<(), Error>)
    ensures
        match r {
            Ok(_) => spec_define_vars(old(on)@, namespace@, definition_models(vars@)) == Ok::<
                _,
                (Map<Seq<Seq<char>>, Seq<char>>, ErrorModel),
            >(final(on)@),
            Err(e) => spec_define_vars(old(on)@, namespace@, definition_models(vars@)) == Err::<
                Map<Seq<Seq<char>>, Seq<char>>,
                _,
            >((final(on)@, e@)),
        },
{
    let ghost models = definition_models(vars@);
    let n = vars.len();
    let mut i: usize = 0;
    proof {
        assert(models.skip(0) =~= models);
    }
    while i < n
        invariant
            n == vars@.len(),
            i <= n,
            models == definition_models(vars@),
            spec_define_vars(old(on)@, namespace@, models) == spec_define_vars(
                on@,
                namespace@,
                models.skip(i as int),
            ),
        decreases n - i,
    {
        proof {
            assert(models.skip(i as int).drop_first() =~= models.skip(i + 1));
            assert(models.skip(i as int)[0] == models[i as int]);
            assert(models[i as int] == (vars@[i as int].0@, vars@[i as int].1@));
        }
        let value = match vars[i].1.render(on) {
            Ok(v) => v,
            Err(e) => {
                return Err(e);
            },
        };
        let key = namespace.duplicate().join(Variable::from_str(vars[i].0.as_str()));
        let ghost kv = key@;
        let ghost vv = value@;
        on.define(key, value);
        i = i + 1;
    }
    proof {
        assert(models.skip(n as int) =~= Seq::<(Seq<char>, Seq<char>)>::empty());
    }
    Ok(())
}

/// Merging entry lists merges their maps; the right-hand side wins.
pub proof fn lemma_ctx_map_concat(
    a: Seq<(Seq<Seq<char>>, Seq<char>)>,
    b: Seq<(Seq<Seq<char>>, Seq<char>)>,
)
    ensures
        ctx_map_of(a + b) == ctx_map_of(a).union_prefer_right(ctx_map_of(b)),
    decreases b.len(),
{
    if b.len() == 0 {
        assert(a + b =~= a);
        assert(ctx_map_of(a).union_prefer_right(Map::empty()) =~= ctx_map_of(a));
    } else {
        lemma_ctx_map_concat(a, b.drop_last());
        assert((a + b).drop_last() =~= a + b.drop_last());
        assert((a + b).last() == b.last());
        assert(ctx_map_of(a).union_prefer_right(
            ctx_map_of(b.drop_last()).insert(b.last().0, b.last().1),
        ) =~= ctx_map_of(a).union_prefer_right(ctx_map_of(b.drop_last())).insert(
            b.last().0,
            b.last().1,
        ));
    }
}

} // verus!
