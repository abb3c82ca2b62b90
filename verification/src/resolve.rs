//! Evaluation of the configuration's `${...}` references: a value may refer to
//! another path or variable by name (`${home}`) or to an environment variable
//! (`${$HOME}`). References are resolved depth first, each name once.
use crate::text::{
    cat, join_texts, joined, occurs_at, append_str, chars_of, ends_with, find, find_from, is_ascii_alnum, is_ascii_alnum_char,
    is_ascii_alpha, is_ascii_alpha_char, starts_with, str_equal, string_of_range, to_string,
};
use crate::values::{lemma_lookup_index, lookup, Pair, Values};
use vstd::prelude::*;

verus! {

/// An error met while evaluating references, as characters.
pub enum EvalErr {
    DuplicateName { name: Seq<char> },
    RelativePath { name: Seq<char>, value: Seq<char> },
    EmptyReference { variable: Seq<char> },
    InvalidReference { variable: Seq<char>, reference: Seq<char> },
    EmptyEnvironmentReference { variable: Seq<char> },
    InvalidEnvironmentReference { variable: Seq<char>, environment: Seq<char> },
    MissingEnvironmentVariable { variable: Seq<char>, environment: Seq<char> },
    NonUnicodeEnvironmentVariable { variable: Seq<char>, environment: Seq<char> },
    UnterminatedReference { variable: Seq<char> },
    UnknownReference { variable: Seq<char>, reference: Seq<char> },
    UnknownVariable { variable: Seq<char> },
    Cycle { variables: Seq<Seq<char>> },
}

/// An error met while evaluating references.
#[derive(Debug, PartialEq, Eq)]
pub enum EvaluationError {
    DuplicateName { name: String },
    RelativePath { name: String, value: String },
    EmptyReference { variable: String },
    InvalidReference { variable: String, reference: String },
    EmptyEnvironmentReference { variable: String },
    InvalidEnvironmentReference { variable: String, environment: String },
    MissingEnvironmentVariable { variable: String, environment: String },
    NonUnicodeEnvironmentVariable { variable: String, environment: String },
    UnterminatedReference { variable: String },
    UnknownReference { variable: String, reference: String },
    UnknownVariable { variable: String },
    Cycle { variables: Vec<String> },
}

pub open spec fn strings_view(v: Seq<String>) -> Seq<Seq<char>> {
    v.map_values(|s: String| s@)
}

impl View for EvaluationError {
    type V = EvalErr;

    open spec fn view(&self) -> EvalErr {
        match self {
            EvaluationError::DuplicateName { name } => EvalErr::DuplicateName { name: name@ },
            EvaluationError::RelativePath { name, value } => EvalErr::RelativePath {
                name: name@,
                value: value@,
            },
            EvaluationError::EmptyReference { variable } => EvalErr::EmptyReference {
                variable: variable@,
            },
            EvaluationError::InvalidReference { variable, reference } => EvalErr::InvalidReference {
                variable: variable@,
                reference: reference@,
            },
            EvaluationError::EmptyEnvironmentReference { variable } =>
                EvalErr::EmptyEnvironmentReference { variable: variable@ },
            EvaluationError::InvalidEnvironmentReference { variable, environment } =>
                EvalErr::InvalidEnvironmentReference {
                variable: variable@,
                environment: environment@,
            },
            EvaluationError::MissingEnvironmentVariable { variable, environment } =>
                EvalErr::MissingEnvironmentVariable {
                variable: variable@,
                environment: environment@,
            },
            EvaluationError::NonUnicodeEnvironmentVariable { variable, environment } =>
                EvalErr::NonUnicodeEnvironmentVariable {
                variable: variable@,
                environment: environment@,
            },
            EvaluationError::UnterminatedReference { variable } => EvalErr::UnterminatedReference {
                variable: variable@,
            },
            EvaluationError::UnknownReference { variable, reference } => EvalErr::UnknownReference {
                variable: variable@,
                reference: reference@,
            },
            EvaluationError::UnknownVariable { variable } => EvalErr::UnknownVariable {
                variable: variable@,
            },
            EvaluationError::Cycle { variables } => EvalErr::Cycle {
                variables: strings_view(variables@),
            },
        }
    }
}

/// The text that reports an evaluation error.
pub open spec fn evaluation_message_spec(e: EvalErr) -> Seq<char> {
    match e {
        EvalErr::DuplicateName { name } => "'"@ + name + "' is defined in both path and variables"@,
        EvalErr::RelativePath { name, value } => "path '"@ + name + "' must resolve to an absolute path, got "@ + value,
        EvalErr::EmptyReference { variable } => "variable '"@ + variable + "' contains an empty reference"@,
        EvalErr::InvalidReference { variable, reference } => "variable '"@ + variable + "' contains invalid reference '${"@ + reference + "}'"@,
        EvalErr::EmptyEnvironmentReference { variable } => "variable '"@ + variable + "' contains an empty environment reference"@,
        EvalErr::InvalidEnvironmentReference { variable, environment } => "variable '"@ + variable + "' contains invalid environment reference '${$$"@ + environment + "}'"@,
        EvalErr::MissingEnvironmentVariable { variable, environment } => "variable '"@ + variable + "' references unset environment variable '"@ + environment + "'"@,
        EvalErr::NonUnicodeEnvironmentVariable { variable, environment } => "variable '"@ + variable + "' references non-Unicode environment variable '"@ + environment + "'"@,
        EvalErr::UnterminatedReference { variable } => "variable '"@ + variable + "' contains an unterminated reference"@,
        EvalErr::UnknownReference { variable, reference } => "variable '"@ + variable + "' references unknown variable '"@ + reference + "'"@,
        EvalErr::UnknownVariable { variable } => "unknown variable '"@ + variable + "'"@,
        EvalErr::Cycle { variables } => "cyclic variable reference: "@ + joined(variables, " -> "@),
    }
}

impl EvaluationError {
    /// The text that reports the error.
    pub fn message(&self) -> (res: String)
        ensures
            res@ == evaluation_message_spec(self@),
    {
        match self {
            EvaluationError::DuplicateName { name } => cat(cat(to_string("'"), name.as_str()), "' is defined in both path and variables"),
            EvaluationError::RelativePath { name, value } => cat(cat(cat(to_string("path '"), name.as_str()), "' must resolve to an absolute path, got "), value.as_str()),
            EvaluationError::EmptyReference { variable } => cat(cat(to_string("variable '"), variable.as_str()), "' contains an empty reference"),
            EvaluationError::InvalidReference { variable, reference } => cat(cat(cat(cat(to_string("variable '"), variable.as_str()), "' contains invalid reference '${"), reference.as_str()), "}'"),
            EvaluationError::EmptyEnvironmentReference { variable } => cat(cat(to_string("variable '"), variable.as_str()), "' contains an empty environment reference"),
            EvaluationError::InvalidEnvironmentReference { variable, environment } => cat(cat(cat(cat(to_string("variable '"), variable.as_str()), "' contains invalid environment reference '${$$"), environment.as_str()), "}'"),
            EvaluationError::MissingEnvironmentVariable { variable, environment } => cat(cat(cat(cat(to_string("variable '"), variable.as_str()), "' references unset environment variable '"), environment.as_str()), "'"),
            EvaluationError::NonUnicodeEnvironmentVariable { variable, environment } => cat(cat(cat(cat(to_string("variable '"), variable.as_str()), "' references non-Unicode environment variable '"), environment.as_str()), "'"),
            EvaluationError::UnterminatedReference { variable } => cat(cat(to_string("variable '"), variable.as_str()), "' contains an unterminated reference"),
            EvaluationError::UnknownReference { variable, reference } => cat(cat(cat(cat(to_string("variable '"), variable.as_str()), "' references unknown variable '"), reference.as_str()), "'"),
            EvaluationError::UnknownVariable { variable } => cat(cat(to_string("unknown variable '"), variable.as_str()), "'"),
            EvaluationError::Cycle { variables } => cat(to_string("cyclic variable reference: "), join_texts(variables, " -> ").as_str()),
        }
    }
}

pub open spec fn res_view(r: Result<String, EvaluationError>) -> Result<Seq<char>, EvalErr> {
    match r {
        Ok(s) => Ok(s@),
        Err(e) => Err(e@),
    }
}

pub open spec fn unit_view(r: Result<(), EvaluationError>) -> Result<(), EvalErr> {
    match r {
        Ok(()) => Ok(()),
        Err(e) => Err(e@),
    }
}

pub open spec fn dollar_brace() -> Seq<char> {
    seq!['$', '{']
}

pub open spec fn close_brace() -> Seq<char> {
    seq!['}']
}

pub open spec fn slash() -> Seq<char> {
    seq!['/']
}

/// Appends `fragment` to `result`, dropping one of two separators that meet.
pub open spec fn append_fragment(result: Seq<char>, fragment: Seq<char>) -> Seq<char> {
    if ends_with(result, slash()) && starts_with(fragment, slash()) {
        result + fragment.skip(1)
    } else {
        result + fragment
    }
}

/// The error that an environment reference `${$environment}` in `variable` has,
/// if any: a name starts with a letter or `_` and continues with letters,
/// digits and `_`.
pub open spec fn environment_reference_error(variable: Seq<char>, environment: Seq<char>) -> Option<
    EvalErr,
> {
    if environment.len() == 0 {
        Some(EvalErr::EmptyEnvironmentReference { variable })
    } else if (!is_ascii_alpha(environment[0]) && environment[0] != '_') || exists|i: int|
        1 <= i < environment.len() && !is_ascii_alnum(#[trigger] environment[i]) && environment[i]
            != '_' {
        Some(EvalErr::InvalidEnvironmentReference { variable, environment })
    } else {
        None
    }
}

/// The error that a reference `${reference}` in `variable` has, if any: a name
/// starts with a letter or `_` and continues with letters, digits, `_` and `-`.
pub open spec fn reference_error(variable: Seq<char>, reference: Seq<char>) -> Option<EvalErr> {
    if reference.len() > 0 && reference[0] == '$' {
        environment_reference_error(variable, reference.skip(1))
    } else if reference.len() == 0 {
        Some(EvalErr::EmptyReference { variable })
    } else if (!is_ascii_alpha(reference[0]) && reference[0] != '_') || exists|i: int|
        1 <= i < reference.len() && !is_ascii_alnum(#[trigger] reference[i]) && reference[i] != '_'
            && reference[i] != '-' {
        Some(EvalErr::InvalidReference { variable, reference })
    } else {
        None
    }
}

/// The position of the first `name` in `stack`.
pub open spec fn first_index(stack: Seq<Seq<char>>, name: Seq<char>) -> int
    decreases stack.len(),
{
    if stack.len() == 0 || stack[0] == name {
        0
    } else {
        1 + first_index(stack.drop_first(), name)
    }
}

/// The outcome of a resolution step: the result and the names resolved so far.
pub type Step = (Result<Seq<char>, EvalErr>, Map<Seq<char>, Seq<char>>);

/// Resolves the value of `name` given the names being resolved (`stack`) and
/// those already resolved (`done`). `fuel` bounds the depth and is never
/// exhausted when the stack holds distinct names of `raw`.
pub open spec fn resolve_name(
    raw: Seq<Pair>,
    env: Map<Seq<char>, Seq<char>>,
    stack: Seq<Seq<char>>,
    done: Map<Seq<char>, Seq<char>>,
    name: Seq<char>,
    fuel: nat,
) -> Step
    decreases fuel, 0int, 0int,
{
    if done.contains_key(name) {
        (Ok(done[name]), done)
    } else if stack.contains(name) {
        (
            Err(EvalErr::Cycle { variables: stack.skip(first_index(stack, name)).push(name) }),
            done,
        )
    } else {
        match lookup(raw, name) {
            None => (Err(EvalErr::UnknownVariable { variable: name }), done),
            Some(template) => {
                if fuel == 0 {
                    (Err(EvalErr::UnknownVariable { variable: name }), done)
                } else {
                    let (r, after) = interpolate_from(
                        raw,
                        env,
                        stack.push(name),
                        done,
                        name,
                        template,
                        Seq::empty(),
                        (fuel - 1) as nat,
                    );
                    match r {
                        Ok(v) => (Ok(v), after.insert(name, v)),
                        Err(e) => (Err(e), after),
                    }
                }
            },
        }
    }
}

/// Resolves the reference `${reference}` met in `variable`.
pub open spec fn resolve_reference(
    raw: Seq<Pair>,
    env: Map<Seq<char>, Seq<char>>,
    stack: Seq<Seq<char>>,
    done: Map<Seq<char>, Seq<char>>,
    variable: Seq<char>,
    reference: Seq<char>,
    fuel: nat,
) -> Step
    decreases fuel, 1int, 0int,
{
    if reference.len() > 0 && reference[0] == '$' {
        let environment = reference.skip(1);
        if env.contains_key(environment) {
            (Ok(env[environment]), done)
        } else {
            (Err(EvalErr::MissingEnvironmentVariable { variable, environment }), done)
        }
    } else if lookup(raw, reference) is Some {
        resolve_name(raw, env, stack, done, reference, fuel)
    } else {
        (Err(EvalErr::UnknownReference { variable, reference }), done)
    }
}

/// Interpolates the text `remaining` of `variable` after the text `acc`
/// already produced: every `${reference}` is replaced by its value.
pub open spec fn interpolate_from(
    raw: Seq<Pair>,
    env: Map<Seq<char>, Seq<char>>,
    stack: Seq<Seq<char>>,
    done: Map<Seq<char>, Seq<char>>,
    variable: Seq<char>,
    remaining: Seq<char>,
    acc: Seq<char>,
    fuel: nat,
) -> Step
    decreases fuel, 2int, remaining.len(),
{
    match find(remaining, dollar_brace()) {
        None => (Ok(append_fragment(acc, remaining)), done),
        Some(start) => {
            if start < 0 || start + 2 > remaining.len() {
                (Ok(acc), done)
            } else {
                let acc1 = append_fragment(acc, remaining.take(start));
                let rest = remaining.skip(start + 2);
                match find(rest, close_brace()) {
                    None => (Err(EvalErr::UnterminatedReference { variable }), done),
                    Some(end) => {
                        if end < 0 || end >= rest.len() {
                            (Ok(acc), done)
                        } else {
                            let reference = rest.take(end);
                            match reference_error(variable, reference) {
                                Some(e) => (Err(e), done),
                                None => {
                                    let (r, after) = resolve_reference(
                                        raw,
                                        env,
                                        stack,
                                        done,
                                        variable,
                                        reference,
                                        fuel,
                                    );
                                    match r {
                                        Err(e) => (Err(e), after),
                                        Ok(value) => interpolate_from(
                                            raw,
                                            env,
                                            stack,
                                            after,
                                            variable,
                                            rest.skip(end + 1),
                                            append_fragment(acc1, value),
                                            fuel,
                                        ),
                                    }
                                },
                            }
                        }
                    },
                }
            }
        },
    }
}

/// Resolves the names of `raw` from index `i` on, in order.
pub open spec fn resolve_from(
    raw: Seq<Pair>,
    env: Map<Seq<char>, Seq<char>>,
    done: Map<Seq<char>, Seq<char>>,
    i: int,
) -> Result<Map<Seq<char>, Seq<char>>, EvalErr>
    decreases raw.len() - i,
{
    if i < 0 || i >= raw.len() {
        Ok(done)
    } else {
        let (r, after) = resolve_name(raw, env, Seq::empty(), done, raw[i].0, raw.len() as nat);
        match r {
            Err(e) => Err(e),
            Ok(_) => resolve_from(raw, env, after, i + 1),
        }
    }
}

/// The values of every name of `raw`, each reference replaced.
pub open spec fn resolve_all_spec(raw: Seq<Pair>, env: Map<Seq<char>, Seq<char>>) -> Result<
    Map<Seq<char>, Seq<char>>,
    EvalErr,
> {
    resolve_from(raw, env, Map::empty(), 0)
}

/// `template`, given as the value of `variable`, with its references replaced.
pub open spec fn interpolate_spec(
    raw: Seq<Pair>,
    env: Map<Seq<char>, Seq<char>>,
    variable: Seq<char>,
    template: Seq<char>,
) -> Result<Seq<char>, EvalErr> {
    interpolate_from(raw, env, Seq::empty(), Map::empty(), variable, template, Seq::empty(), raw.len() as nat).0
}

pub fn append_fragment_exec(result: &mut String, fragment: &[char], from: usize, to: usize)
    requires
        from <= to <= fragment@.len(),
    ensures
        final(result)@ == append_fragment(old(result)@, fragment@.subrange(from as int, to as int)),
{
    let r = chars_of(result.as_str());
    let ghost frag = fragment@.subrange(from as int, to as int);
    if r.len() > 0 && r[r.len() - 1] == '/' && to > from && fragment[from] == '/' {
        let piece = string_of_range(fragment, from + 1, to);
        append_str(result, piece.as_str());
        proof {
            assert(ends_with(r@, slash())) by {
                assert(r@.skip(r@.len() - 1) =~= slash());
            }
            assert(starts_with(frag, slash())) by {
                assert(frag.take(1) =~= slash());
            }
            assert(frag.skip(1) =~= fragment@.subrange(from + 1, to as int));
        }
    } else {
        let piece = string_of_range(fragment, from, to);
        append_str(result, piece.as_str());
        proof {
            if ends_with(r@, slash()) && starts_with(frag, slash()) {
                assert(r@.skip(r@.len() - 1)[0] == r@[r@.len() - 1]);
                assert(frag.take(1)[0] == frag[0]);
            }
        }
    }
}

/// Checks an environment reference `${$environment}` met in `variable`.
pub fn validate_environment_reference(variable: &str, environment: &[char]) -> (res: Result<
    (),
    EvaluationError,
>)
    ensures
        unit_view(res) == match environment_reference_error(variable@, environment@) {
            Some(e) => Err(e),
            None => Ok(()),
        },
{
    if environment.len() == 0 {
        return Err(EvaluationError::EmptyEnvironmentReference { variable: to_string(variable) });
    }
    let first = environment[0];
    let mut bad = !is_ascii_alpha_char(first) && first != '_';
    let mut i: usize = 1;
    while i < environment.len() && !bad
        invariant
            1 <= i <= environment@.len(),
            !bad ==> is_ascii_alpha(environment@[0]) || environment@[0] == '_',
            !bad ==> forall|j: int|
                1 <= j < i ==> is_ascii_alnum(#[trigger] environment@[j]) || environment@[j] == '_',
            bad ==> (!is_ascii_alpha(environment@[0]) && environment@[0] != '_') || exists|j: int|
                1 <= j < environment@.len() && !is_ascii_alnum(#[trigger] environment@[j])
                    && environment@[j] != '_',
        decreases environment@.len() - i,
    {
        let c = environment[i];
        if !is_ascii_alnum_char(c) && c != '_' {
            bad = true;
            assert(!is_ascii_alnum(environment@[i as int]) && environment@[i as int] != '_');
        }
        i += 1;
    }
    assert(environment@.subrange(0, environment@.len() as int) =~= environment@);
    if bad {
        return Err(
            EvaluationError::InvalidEnvironmentReference {
                variable: to_string(variable),
                environment: string_of_range(environment, 0, environment.len()),
            },
        );
    }
    assert(!exists|j: int|
        1 <= j < environment@.len() && !is_ascii_alnum(#[trigger] environment@[j])
            && environment@[j] != '_');
    Ok(())
}

/// Checks a reference `${reference}` met in `variable`.
pub fn validate_reference(variable: &str, reference: &[char]) -> (res: Result<(), EvaluationError>)
    ensures
        unit_view(res) == match reference_error(variable@, reference@) {
            Some(e) => Err(e),
            None => Ok(()),
        },
{
    if reference.len() > 0 && reference[0] == '$' {
        let environment = crate::text::string_of_range(reference, 1, reference.len());
        let env_chars = chars_of(environment.as_str());
        assert(reference@.subrange(1, reference@.len() as int) =~= reference@.skip(1));
        return validate_environment_reference(variable, env_chars.as_slice());
    }
    if reference.len() == 0 {
        return Err(EvaluationError::EmptyReference { variable: to_string(variable) });
    }
    let first = reference[0];
    let mut bad = !is_ascii_alpha_char(first) && first != '_';
    let mut i: usize = 1;
    while i < reference.len() && !bad
        invariant
            1 <= i <= reference@.len(),
            !bad ==> is_ascii_alpha(reference@[0]) || reference@[0] == '_',
            !bad ==> forall|j: int|
                1 <= j < i ==> is_ascii_alnum(#[trigger] reference@[j]) || reference@[j] == '_'
                    || reference@[j] == '-',
            bad ==> (!is_ascii_alpha(reference@[0]) && reference@[0] != '_') || exists|j: int|
                1 <= j < reference@.len() && !is_ascii_alnum(#[trigger] reference@[j])
                    && reference@[j] != '_' && reference@[j] != '-',
        decreases reference@.len() - i,
    {
        let c = reference[i];
        if !is_ascii_alnum_char(c) && c != '_' && c != '-' {
            bad = true;
            assert(!is_ascii_alnum(reference@[i as int]) && reference@[i as int] != '_' && reference@[i as int] != '-');
        }
        i += 1;
    }
    if bad {
        let r = string_of_range(reference, 0, reference.len());
        assert(reference@.subrange(0, reference@.len() as int) =~= reference@);
        return Err(EvaluationError::InvalidReference { variable: to_string(variable), reference: r });
    }
    assert(!exists|j: int|
        1 <= j < reference@.len() && !is_ascii_alnum(#[trigger] reference@[j])
            && reference@[j] != '_' && reference@[j] != '-');
    Ok(())
}

/// A stack of distinct names of `raw` is no longer than `raw`.
proof fn lemma_stack_bound(raw: Seq<Pair>, stack: Seq<Seq<char>>)
    requires
        stack.no_duplicates(),
        forall|i: int| 0 <= i < stack.len() ==> lookup(raw, #[trigger] stack[i]) is Some,
    ensures
        stack.len() <= raw.len(),
{
    let keys = raw.map_values(|p: Pair| p.0);
    assert forall|x: Seq<char>| stack.to_set().contains(x) implies keys.to_set().contains(x) by {
        let i = choose|i: int| 0 <= i < stack.len() && stack[i] == x;
        assert(lookup(raw, stack[i]) is Some);
        lemma_lookup_index(raw, x);
        let j = choose|j: int| 0 <= j < raw.len() && raw[j].0 == x && raw[j].1 == lookup(raw, x)->Some_0 && forall|m: int| 0 <= m < j ==> raw[m].0 != x;
        assert(keys[j] == x);
    }
    stack.unique_seq_to_set();
    keys.lemma_cardinality_of_set();
    vstd::set_lib::lemma_len_subset(stack.to_set(), keys.to_set());
}

/// Resolves references among the entries of `raw`, with `environment` for
/// `${$NAME}` references.
pub struct VariableResolver<'a> {
    raw: &'a Values,
    environment: &'a Values,
    resolved: Values,
    resolving: Vec<String>,
}

impl<'a> VariableResolver<'a> {
    pub closed spec fn stack(&self) -> Seq<Seq<char>> {
        strings_view(self.resolving@)
    }

    pub closed spec fn done(&self) -> Map<Seq<char>, Seq<char>> {
        self.resolved.map()
    }

    pub closed spec fn raw_pairs(&self) -> Seq<Pair> {
        self.raw.pairs()
    }

    pub closed spec fn env_map(&self) -> Map<Seq<char>, Seq<char>> {
        self.environment.map()
    }

    /// The names being resolved are distinct names of `raw`.
    pub closed spec fn inv(&self) -> bool {
        &&& self.stack().no_duplicates()
        &&& forall|i: int| 0 <= i < self.stack().len() ==> lookup(self.raw.pairs(), #[trigger] self.stack()[i]) is Some
    }

    pub closed spec fn fuel(&self) -> nat {
        (self.raw.pairs().len() - self.stack().len()) as nat
    }

    pub fn new(raw: &'a Values, environment: &'a Values) -> (res: VariableResolver<'a>)
        ensures
            res.inv(),
            res.stack() == Seq::<Seq<char>>::empty(),
            res.done() == Map::<Seq<char>, Seq<char>>::empty(),
            res.raw_pairs() == raw.pairs(),
            res.env_map() == environment.map(),
            res.fuel() == raw.pairs().len(),
    {
        let res = VariableResolver { raw, environment, resolved: Values::new(), resolving: Vec::new() };
        assert(res.stack() =~= Seq::<Seq<char>>::empty());
        res
    }

    /// The values of all names of `raw`, in name order.
    #[verifier::loop_isolation(false)]
    pub fn resolve_all(self) -> (res: Result<Values, EvaluationError>)
        requires
            self.inv(),
            self.stack() == Seq::<Seq<char>>::empty(),
            self.done() == Map::<Seq<char>, Seq<char>>::empty(),
        ensures
            match res {
                Ok(m) => resolve_all_spec(self.raw_pairs(), self.env_map()) == Ok::<
                    Map<Seq<char>, Seq<char>>,
                    EvalErr,
                >(m.map()),
                Err(e) => resolve_all_spec(self.raw_pairs(), self.env_map()) == Err::<
                    Map<Seq<char>, Seq<char>>,
                    EvalErr,
                >(e@),
            },
    {
        let mut this = self;
        let ghost raw = this.raw_pairs();
        let ghost env = this.env_map();
        let n = this.raw.len();
        let mut i: usize = 0;
        while i < n
            invariant
                n == raw.len(),
                i <= n,
                this.inv(),
                this.raw_pairs() == raw,
                this.env_map() == env,
                this.stack() == Seq::<Seq<char>>::empty(),
                resolve_all_spec(raw, env) == resolve_from(raw, env, this.done(), i as int),
            decreases n - i,
        {
            let name = this.raw.key_at(i).clone();
            let r = this.resolve_variable(name.as_str());
            match r {
                Err(e) => {
                    return Err(e);
                },
                Ok(_) => {},
            }
            i += 1;
        }
        Ok(this.resolved)
    }

    /// The value of `name`.
    #[verifier::loop_isolation(false)]
    pub fn resolve_variable(&mut self, name: &str) -> (res: Result<String, EvaluationError>)
        requires
            old(self).inv(),
        ensures
            final(self).inv(),
            final(self).stack() == old(self).stack(),
            final(self).raw_pairs() == old(self).raw_pairs(),
            final(self).env_map() == old(self).env_map(),
            (res_view(res), final(self).done()) == resolve_name(
                old(self).raw_pairs(),
                old(self).env_map(),
                old(self).stack(),
                old(self).done(),
                name@,
                old(self).fuel(),
            ),
        decreases old(self).fuel(), 0int, 0int,
    {
        if let Some(value) = self.resolved.get(name) {
            return Ok(value.clone());
        }
        let mut index: usize = 0;
        while index < self.resolving.len()
            invariant
                index <= self.resolving@.len(),
                forall|j: int| 0 <= j < index ==> self.stack()[j] != name@,
            decreases self.resolving@.len() - index,
        {
            if str_equal(self.resolving[index].as_str(), name) {
                let mut variables: Vec<String> = Vec::new();
                let mut k = index;
                while k < self.resolving.len()
                    invariant
                        index <= k <= self.resolving@.len(),
                        variables@.len() == k - index,
                        strings_view(variables@) == self.stack().subrange(index as int, k as int),
                    decreases self.resolving@.len() - k,
                {
                    variables.push(self.resolving[k].clone());
                    assert(strings_view(variables@) =~= self.stack().subrange(index as int, k + 1));
                    k += 1;
                }
                variables.push(to_string(name));
                proof {
                    assert(self.stack()[index as int] == name@);
                    assert(self.stack().contains(name@));
                    lemma_first_index(self.stack(), name@, index as int);
                    assert(strings_view(variables@) =~= self.stack().skip(index as int).push(name@));
                }
                return Err(EvaluationError::Cycle { variables });
            }
            index += 1;
        }
        assert(!self.stack().contains(name@));
        let template = match self.raw.get(name) {
            Some(t) => t.clone(),
            None => {
                proof {
                    lemma_map_lookup(self.raw.pairs(), name@);
                }
                return Err(EvaluationError::UnknownVariable { variable: to_string(name) });
            },
        };
        proof {
            lemma_map_lookup(self.raw.pairs(), name@);
            lemma_stack_bound(self.raw.pairs(), self.stack().push(name@));
        }
        let ghost before = *self;
        self.resolving.push(to_string(name));
        proof {
            assert(self.stack() =~= before.stack().push(name@));
        }
        let result = self.interpolate(name, template.as_str());
        let ghost mid = self.resolving@;
        let popped = self.resolving.pop();
        proof {
            assert(self.resolving@ == mid.drop_last());
            assert(strings_view(mid) == before.stack().push(name@));
            assert(strings_view(self.resolving@) =~= strings_view(mid).drop_last());
            assert(self.stack() =~= before.stack());
        }
        let value = match result {
            Ok(v) => v,
            Err(e) => {
                return Err(e);
            },
        };
        self.resolved.insert(to_string(name), value.clone());
        Ok(value)
    }

    /// `template` with its references replaced, as the value of `variable`.
    #[verifier::loop_isolation(false)]
    #[verifier::rlimit(80)]
    pub fn interpolate(&mut self, variable: &str, template: &str) -> (res: Result<String, EvaluationError>)
        requires
            old(self).inv(),
        ensures
            final(self).inv(),
            final(self).stack() == old(self).stack(),
            final(self).raw_pairs() == old(self).raw_pairs(),
            final(self).env_map() == old(self).env_map(),
            (res_view(res), final(self).done()) == interpolate_from(
                old(self).raw_pairs(),
                old(self).env_map(),
                old(self).stack(),
                old(self).done(),
                variable@,
                template@,
                Seq::empty(),
                old(self).fuel(),
            ),
        decreases old(self).fuel(), 2int, template@.len(),
    {
        let t = chars_of(template);
        let tlen = t.len();
        let mut result = String::new();
        let mut pos: usize = 0;
        let ghost raw = self.raw_pairs();
        let ghost env = self.env_map();
        let ghost stack = self.stack();
        let ghost fuel = self.fuel();
        let ghost whole = interpolate_from(raw, env, stack, self.done(), variable@, template@, Seq::empty(), fuel);
        assert(t@.skip(0) =~= t@);
        let open_marker: [char; 2] = ['$', '{'];
        let close_marker: [char; 1] = ['}'];
        assert(open_marker@ =~= dollar_brace());
        assert(close_marker@ =~= close_brace());
        loop
            invariant
                pos <= t@.len(),
                tlen == t@.len(),
                t@ == template@,
                self.inv(),
                self.raw_pairs() == raw,
                self.env_map() == env,
                self.stack() == stack,
                self.fuel() == fuel,
                open_marker@ == dollar_brace(),
                close_marker@ == close_brace(),
                whole == interpolate_from(raw, env, stack, self.done(), variable@, t@.skip(pos as int), result@, fuel),
            decreases t@.len() - pos,
        {
            let ghost remaining = t@.skip(pos as int);
            let found = crate::text::find_chars(t.as_slice(), &open_marker, pos);
            proof {
                crate::text::lemma_find_shift(t@, dollar_brace(), pos as int);
            }
            match found {
                None => {
                    append_fragment_exec(&mut result, t.as_slice(), pos, t.len());
                    assert(t@.subrange(pos as int, t@.len() as int) =~= remaining);
                    return Ok(result);
                },
                Some(start) => {
                    proof {
                        crate::text::lemma_find_from_bounds(t@, dollar_brace(), pos as int);
                    }
                    append_fragment_exec(&mut result, t.as_slice(), pos, start);
                    assert(t@.subrange(pos as int, start as int) =~= remaining.take(start - pos));
                    assert(occurs_at(t@, start as int, dollar_brace()));
                    assert(start + 2 <= t@.len());
                    let after_open = start + 2;
                    let ghost rest = remaining.skip(start - pos + 2);
                    assert(rest =~= t@.skip(after_open as int));
                    let found_end = crate::text::find_chars(t.as_slice(), &close_marker, after_open);
                    proof {
                        crate::text::lemma_find_shift(t@, close_brace(), after_open as int);
                    }
                    match found_end {
                        None => {
                            return Err(EvaluationError::UnterminatedReference { variable: to_string(variable) });
                        },
                        Some(end) => {
                            proof {
                                crate::text::lemma_find_from_bounds(t@, close_brace(), after_open as int);
                            }
                            assert(occurs_at(t@, end as int, close_brace()));
                            assert(end + 1 <= t@.len());
                            let reference = string_of_range(t.as_slice(), after_open, end);
                            let reference_chars = chars_of(reference.as_str());
                            assert(reference_chars@ =~= rest.take(end - after_open));
                            match validate_reference(variable, reference_chars.as_slice()) {
                                Err(e) => {
                                    return Err(e);
                                },
                                Ok(()) => {},
                            }
                            let value = match self.resolve_reference(variable, reference.as_str()) {
                                Err(e) => {
                                    return Err(e);
                                },
                                Ok(v) => v,
                            };
                            let value_chars = chars_of(value.as_str());
                            append_fragment_exec(&mut result, value_chars.as_slice(), 0, value_chars.len());
                            assert(value_chars@.subrange(0, value_chars@.len() as int) =~= value@);
                            assert(rest.skip(end - after_open + 1) =~= t@.skip(end + 1));
                            pos = end + 1;
                        },
                    }
                },
            }
        }
    }

    /// The value of the reference `${reference}` met in `variable`.
    pub fn resolve_reference(&mut self, variable: &str, reference: &str) -> (res: Result<String, EvaluationError>)
        requires
            old(self).inv(),
        ensures
            final(self).inv(),
            final(self).stack() == old(self).stack(),
            final(self).raw_pairs() == old(self).raw_pairs(),
            final(self).env_map() == old(self).env_map(),
            (res_view(res), final(self).done()) == resolve_reference(
                old(self).raw_pairs(),
                old(self).env_map(),
                old(self).stack(),
                old(self).done(),
                variable@,
                reference@,
                old(self).fuel(),
            ),
        decreases old(self).fuel(), 1int, 0int,
    {
        let r = chars_of(reference);
        if r.len() > 0 && r[0] == '$' {
            let environment = string_of_range(r.as_slice(), 1, r.len());
            assert(environment@ =~= reference@.skip(1));
            return match self.environment.get(environment.as_str()) {
                Some(v) => Ok(v.clone()),
                None => Err(
                    EvaluationError::MissingEnvironmentVariable {
                        variable: to_string(variable),
                        environment,
                    },
                ),
            };
        }
        proof {
            lemma_map_lookup(self.raw.pairs(), reference@);
        }
        if self.raw.contains_key(reference) {
            self.resolve_variable(reference)
        } else {
            Err(
                EvaluationError::UnknownReference {
                    variable: to_string(variable),
                    reference: to_string(reference),
                },
            )
        }
    }
}

/// Membership in the map of a `Values` is `lookup` in its entries.
pub proof fn lemma_map_lookup(pairs: Seq<Pair>, k: Seq<char>)
    ensures
        crate::values::map_of(pairs).contains_key(k) == (lookup(pairs, k) is Some),
        lookup(pairs, k) is Some ==> crate::values::map_of(pairs)[k] == lookup(pairs, k)->Some_0,
{
}

proof fn lemma_first_index(stack: Seq<Seq<char>>, name: Seq<char>, i: int)
    requires
        0 <= i < stack.len(),
        stack[i] == name,
        forall|j: int| 0 <= j < i ==> stack[j] != name,
    ensures
        first_index(stack, name) == i,
    decreases i,
{
    if i > 0 {
        lemma_first_index(stack.drop_first(), name, i - 1);
    }
}

} // verus!

verus! {

/// Resolution only adds names, and a resolved name is among them.
pub proof fn lemma_resolve_name_grows(
    raw: Seq<Pair>,
    env: Map<Seq<char>, Seq<char>>,
    stack: Seq<Seq<char>>,
    done: Map<Seq<char>, Seq<char>>,
    name: Seq<char>,
    fuel: nat,
)
    ensures
        done.submap_of(resolve_name(raw, env, stack, done, name, fuel).1),
        resolve_name(raw, env, stack, done, name, fuel).0 matches Ok(v) ==> resolve_name(
            raw,
            env,
            stack,
            done,
            name,
            fuel,
        ).1.contains_key(name) && resolve_name(raw, env, stack, done, name, fuel).1[name] == v,
    decreases fuel, 0int, 0int,
{
    if done.contains_key(name) {
    } else if stack.contains(name) {
    } else {
        match lookup(raw, name) {
            None => {},
            Some(template) => {
                if fuel > 0 {
                    lemma_interpolate_grows(
                        raw,
                        env,
                        stack.push(name),
                        done,
                        name,
                        template,
                        Seq::empty(),
                        (fuel - 1) as nat,
                    );
                }
            },
        }
    }
}

pub proof fn lemma_resolve_reference_grows(
    raw: Seq<Pair>,
    env: Map<Seq<char>, Seq<char>>,
    stack: Seq<Seq<char>>,
    done: Map<Seq<char>, Seq<char>>,
    variable: Seq<char>,
    reference: Seq<char>,
    fuel: nat,
)
    ensures
        done.submap_of(resolve_reference(raw, env, stack, done, variable, reference, fuel).1),
    decreases fuel, 1int, 0int,
{
    if reference.len() > 0 && reference[0] == '$' {
    } else if lookup(raw, reference) is Some {
        lemma_resolve_name_grows(raw, env, stack, done, reference, fuel);
    }
}

pub proof fn lemma_interpolate_grows(
    raw: Seq<Pair>,
    env: Map<Seq<char>, Seq<char>>,
    stack: Seq<Seq<char>>,
    done: Map<Seq<char>, Seq<char>>,
    variable: Seq<char>,
    remaining: Seq<char>,
    acc: Seq<char>,
    fuel: nat,
)
    ensures
        done.submap_of(
            interpolate_from(raw, env, stack, done, variable, remaining, acc, fuel).1,
        ),
    decreases fuel, 2int, remaining.len(),
{
    match find(remaining, dollar_brace()) {
        None => {},
        Some(start) => {
            if start < 0 || start + 2 > remaining.len() {
            } else {
                let acc1 = append_fragment(acc, remaining.take(start));
                let rest = remaining.skip(start + 2);
                match find(rest, close_brace()) {
                    None => {},
                    Some(end) => {
                        if end < 0 || end >= rest.len() {
                        } else {
                            let reference = rest.take(end);
                            match reference_error(variable, reference) {
                                Some(e) => {},
                                None => {
                                    lemma_resolve_reference_grows(
                                        raw,
                                        env,
                                        stack,
                                        done,
                                        variable,
                                        reference,
                                        fuel,
                                    );
                                    let (r, after) = resolve_reference(
                                        raw,
                                        env,
                                        stack,
                                        done,
                                        variable,
                                        reference,
                                        fuel,
                                    );
                                    match r {
                                        Err(e) => {},
                                        Ok(value) => {
                                            lemma_interpolate_grows(
                                                raw,
                                                env,
                                                stack,
                                                after,
                                                variable,
                                                rest.skip(end + 1),
                                                append_fragment(acc1, value),
                                                fuel,
                                            );
                                            lemma_submap_trans(
                                                done,
                                                after,
                                                interpolate_from(
                                                    raw,
                                                    env,
                                                    stack,
                                                    after,
                                                    variable,
                                                    rest.skip(end + 1),
                                                    append_fragment(acc1, value),
                                                    fuel,
                                                ).1,
                                            );
                                        },
                                    }
                                },
                            }
                        }
                    },
                }
            }
        },
    }
}

pub proof fn lemma_submap_trans(
    a: Map<Seq<char>, Seq<char>>,
    b: Map<Seq<char>, Seq<char>>,
    c: Map<Seq<char>, Seq<char>>,
)
    requires
        a.submap_of(b),
        b.submap_of(c),
    ensures
        a.submap_of(c),
{
    assert forall|k: Seq<char>| #[trigger] a.dom().contains(k) implies c.dom().contains(k) && a[k] == c[k] by {
        assert(b.dom().contains(k));
        assert(c.dom().contains(k));
    }
}

/// A successful resolution of all names holds every name of `raw`.
pub proof fn lemma_resolve_from_complete(
    raw: Seq<Pair>,
    env: Map<Seq<char>, Seq<char>>,
    done: Map<Seq<char>, Seq<char>>,
    i: int,
)
    requires
        0 <= i,
    ensures
        resolve_from(raw, env, done, i) matches Ok(m) ==> done.submap_of(m) && forall|j: int|
            i <= j < raw.len() ==> m.contains_key(#[trigger] raw[j].0),
    decreases raw.len() - i,
{
    if i < raw.len() {
        lemma_resolve_name_grows(raw, env, Seq::empty(), done, raw[i].0, raw.len() as nat);
        let (r, after) = resolve_name(raw, env, Seq::empty(), done, raw[i].0, raw.len() as nat);
        if r is Ok {
            lemma_resolve_from_complete(raw, env, after, i + 1);
            if let Ok(m) = resolve_from(raw, env, after, i + 1) {
                lemma_submap_trans(done, after, m);
                assert forall|j: int| i <= j < raw.len() implies m.contains_key(#[trigger] raw[j].0) by {
                    if j == i {
                        assert(after.contains_key(raw[i].0));
                    }
                }
            }
        }
    }
}

/// A letter of the ASCII alphabet, by code point.
pub open spec fn letter(c: char) -> bool {
    (97 <= c as u32 && c as u32 <= 122) || (65 <= c as u32 && c as u32 <= 90)
}

/// An ASCII digit, by code point.
pub open spec fn digit(c: char) -> bool {
    48 <= c as u32 && c as u32 <= 57
}

/// The names that environment references accept: a letter or `_`, then
/// letters, digits and `_` (such as `HOME` or `XDG_CONFIG_HOME`); an empty
/// reference and any other name are refused, naming the variable they occur
/// in and, for a bad name, the name.
pub proof fn lemma_environment_names(variable: Seq<char>, environment: Seq<char>)
    ensures
        environment_reference_error(variable, environment) is None <==> (environment.len() > 0 && (letter(
            environment[0],
        ) || environment[0] == '_') && forall|i: int|
            1 <= i < environment.len() ==> letter(#[trigger] environment[i]) || digit(environment[i])
                || environment[i] == '_'),
        environment.len() == 0 ==> environment_reference_error(variable, environment) == Some(
            EvalErr::EmptyEnvironmentReference { variable },
        ),
        environment.len() > 0 && environment_reference_error(variable, environment) is Some
            ==> environment_reference_error(variable, environment) == Some(
            EvalErr::InvalidEnvironmentReference { variable, environment },
        ),
{
    if environment.len() > 0 {
        if environment_reference_error(variable, environment) is None {
            assert forall|i: int|
                1 <= i < environment.len() implies letter(#[trigger] environment[i]) || digit(environment[i])
                || environment[i] == '_' by {
                assert(is_ascii_alnum(environment[i]) || environment[i] == '_');
            }
        }
        if (letter(environment[0]) || environment[0] == '_') && forall|i: int|
            1 <= i < environment.len() ==> letter(#[trigger] environment[i]) || digit(environment[i])
                || environment[i] == '_' {
            assert forall|i: int|
                1 <= i < environment.len() implies is_ascii_alnum(#[trigger] environment[i]) || environment[i]
                == '_' by {
                assert(letter(environment[i]) || digit(environment[i]) || environment[i] == '_');
            }
        }
    }
}

/// The names that `${name}` references accept: a letter or `_`, then
/// letters, digits, `_` and `-`; a reference that starts with `$` is an
/// environment reference, and an empty one is refused.
pub proof fn lemma_reference_names(variable: Seq<char>, reference: Seq<char>)
    ensures
        reference.len() > 0 && reference[0] == '$' ==> reference_error(variable, reference)
            == environment_reference_error(variable, reference.skip(1)),
        !(reference.len() > 0 && reference[0] == '$') ==> (reference_error(variable, reference) is None <==> (
        reference.len() > 0 && (letter(reference[0]) || reference[0] == '_') && forall|i: int|
            1 <= i < reference.len() ==> letter(#[trigger] reference[i]) || digit(reference[i])
                || reference[i] == '_' || reference[i] == '-')),
{
    if reference.len() > 0 && reference[0] != '$' {
        if reference_error(variable, reference) is None {
            assert forall|i: int|
                1 <= i < reference.len() implies letter(#[trigger] reference[i]) || digit(reference[i])
                || reference[i] == '_' || reference[i] == '-' by {
                assert(is_ascii_alnum(reference[i]) || reference[i] == '_' || reference[i] == '-');
            }
        }
        if (letter(reference[0]) || reference[0] == '_') && forall|i: int|
            1 <= i < reference.len() ==> letter(#[trigger] reference[i]) || digit(reference[i])
                || reference[i] == '_' || reference[i] == '-' {
            assert forall|i: int|
                1 <= i < reference.len() implies is_ascii_alnum(#[trigger] reference[i]) || reference[i] == '_'
                || reference[i] == '-' by {
                assert(letter(reference[i]) || digit(reference[i]) || reference[i] == '_' || reference[i] == '-');
            }
        }
    }
}

} // verus!
