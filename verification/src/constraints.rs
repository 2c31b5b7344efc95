//! Regular expressions that the captured values of variables have to match, or
//! must not match.

use regex::Regex;
use vstd::prelude::*;
use vstd::string::*;

use crate::engine::{compiled, regex_matches};
use crate::table::Table;
use crate::text::{cut, cut_text, is_among, texts};

verus! {

/// Why an argument of the form `var=regex` is refused.
#[derive(Debug)]
pub enum RegexError {
    /// The argument has no `=`.
    InvalidArg(String),
    /// No query has a variable of that name.
    InvalidVariable(String),
    /// The regular expression does not compile.
    InvalidRegex(regex::Error),
}

impl From<regex::Error> for RegexError {
    fn from(err: regex::Error) -> (error: RegexError) {
        RegexError::InvalidRegex(err)
    }
}

impl vstd::std_specs::convert::FromSpecImpl<regex::Error> for RegexError {
    open spec fn obeys_from_spec() -> bool {
        true
    }

    open spec fn from_spec(err: regex::Error) -> RegexError {
        RegexError::InvalidRegex(err)
    }
}

/// A [`RegexError`] with its texts as character sequences.
pub enum RegexErrorView {
    InvalidArg(Seq<char>),
    InvalidVariable(Seq<char>),
    InvalidRegex(regex::Error),
}

impl RegexError {
    pub open spec fn view(&self) -> RegexErrorView {
        match self {
            RegexError::InvalidArg(arg) => RegexErrorView::InvalidArg(arg@),
            RegexError::InvalidVariable(var) => RegexErrorView::InvalidVariable(var@),
            RegexError::InvalidRegex(err) => RegexErrorView::InvalidRegex(*err),
        }
    }
}

/// The constraint on one variable: whether it is negative, and the expression.
pub type Constraint = (bool, Regex);

/// A value meets a constraint: it matches a positive one, or does not match a
/// negative one.
pub open spec fn meets(constraint: Constraint, value: Seq<char>) -> bool {
    regex_matches(constraint.1, value) != constraint.0
}

/// Whether a value whose expression matched, or did not, meets a constraint.
pub fn meets_demand(negative: bool, matched: bool) -> (ok: bool)
    ensures
        ok == (matched != negative),
{
    matched != negative
}

/// Every variable with a constraint has a value.
pub open spec fn all_bound(
    constraints: Map<Seq<char>, Constraint>,
    bindings: Map<Seq<char>, Seq<char>>,
) -> bool {
    constraints.dom().subset_of(bindings.dom())
}

/// Every constraint is met by the value of its variable.
pub open spec fn allows(
    constraints: Map<Seq<char>, Constraint>,
    bindings: Map<Seq<char>, Seq<char>>,
) -> bool {
    forall|var: Seq<char>| #[trigger]
        constraints.dom().contains(var) ==> meets(constraints[var], bindings[var])
}

/// The values that variables have, with the texts as character sequences.
pub open spec fn values(bindings: Table<String>) -> Map<Seq<char>, Seq<char>> {
    bindings.view().map_values(|value: String| value@)
}

/// The name of a variable with the leading `$` that an argument may leave out.
pub open spec fn with_dollar(var: Seq<char>) -> Seq<char> {
    if var.len() > 0 && var[0] == '$' {
        var
    } else {
        seq!['$'] + var
    }
}

/// The constraint that ends in `!` is negative.
pub open spec fn is_negative(var: Seq<char>) -> bool {
    with_dollar(var).last() == '!'
}

/// The query variable that is meant by what stands before the `=`.
pub open spec fn variable_name(var: Seq<char>) -> Seq<char> {
    if is_negative(var) {
        with_dollar(var).drop_last()
    } else {
        with_dollar(var)
    }
}

/// The parts of one argument: the variable, whether the constraint is negative, and
/// the regular expression; or why the argument is refused.
pub open spec fn argument_parts(variables: Set<Seq<char>>, arg: Seq<char>) -> Result<
    (Seq<char>, bool, Seq<char>),
    RegexErrorView,
> {
    match cut(arg, '=') {
        None => Err(RegexErrorView::InvalidArg(arg)),
        Some((var, pattern)) => if variables.contains(variable_name(var)) {
            Ok((variable_name(var), is_negative(var), pattern))
        } else {
            Err(RegexErrorView::InvalidVariable(var))
        },
    }
}

/// The constraint on a variable, given what compiling its expression gave.
pub open spec fn constraint_on(
    name: Seq<char>,
    negative: bool,
    regex: Result<Regex, regex::Error>,
) -> Result<(Seq<char>, Constraint), RegexErrorView> {
    match regex {
        Ok(regex) => Ok((name, (negative, regex))),
        Err(err) => Err(RegexErrorView::InvalidRegex(err)),
    }
}

/// What one argument says: the variable and its constraint, or why it is refused.
pub open spec fn read_argument(variables: Set<Seq<char>>, arg: Seq<char>) -> Result<
    (Seq<char>, Constraint),
    RegexErrorView,
> {
    match argument_parts(variables, arg) {
        Ok((name, negative, pattern)) => constraint_on(name, negative, compiled(pattern)),
        Err(err) => Err(err),
    }
}

/// What the arguments say together: a later constraint on a variable takes the
/// place of an earlier one, and the first argument that is refused decides.
pub open spec fn read_arguments(variables: Set<Seq<char>>, args: Seq<Seq<char>>) -> Result<
    Map<Seq<char>, Constraint>,
    RegexErrorView,
>
    decreases args.len(),
{
    if args.len() == 0 {
        Ok(Map::empty())
    } else {
        match read_arguments(variables, args.drop_last()) {
            Err(err) => Err(err),
            Ok(constraints) => match read_argument(variables, args.last()) {
                Err(err) => Err(err),
                Ok((name, constraint)) => Ok(constraints.insert(name, constraint)),
            },
        }
    }
}

/// Map from variable names to a positive or negative regular expression.
pub struct RegexMap(Table<Constraint>);

impl RegexMap {
    pub closed spec fn view(self) -> Map<Seq<char>, Constraint> {
        self.0.view()
    }

    /// A variable with a constraint that has no value in `bindings`, if there is one.
    pub fn unbound_variable(&self, bindings: &Table<String>) -> (var: Option<String>)
        ensures
            match var {
                Some(v) => self.view().dom().contains(v@) && !values(*bindings).dom().contains(v@),
                None => all_bound(self.view(), values(*bindings)),
            },
    {
        let n: usize = self.0.len();
        for i in 0..n
            invariant
                n == self.0.names().len(),
                forall|j: int|
                    0 <= j < i ==> values(*bindings).dom().contains(#[trigger] self.0.names()[j]),
        {
            let (var, _) = self.0.entry(i);
            if bindings.get(var).is_none() {
                return Some(var.clone());
            }
        }
        proof {
            assert forall|v: Seq<char>| #[trigger] self.view().dom().contains(v) implies values(
                *bindings,
            ).dom().contains(v) by {
                assert(self.0.names().contains(v));
            }
        }
        None
    }

    /// Whether the constraints allow a match with these values of the variables.
    pub fn include_match(&self, bindings: &Table<String>) -> (included: bool)
        requires
            all_bound(self.view(), values(*bindings)),
        ensures
            included == allows(self.view(), values(*bindings)),
    {
        let n: usize = self.0.len();
        for i in 0..n
            invariant
                n == self.0.names().len(),
                all_bound(self.view(), values(*bindings)),
                forall|j: int|
                    0 <= j < i ==> meets(
                        self.view()[#[trigger] self.0.names()[j]],
                        values(*bindings)[self.0.names()[j]],
                    ),
        {
            let (var, constraint) = self.0.entry(i);
            assert(self.view().dom().contains(var@));
            match bindings.get(var) {
                Some(value) => {
                    if !meets_demand(constraint.0, constraint.1.is_match(value.as_str())) {
                        return false;
                    }
                },
                None => {},
            }
        }
        proof {
            assert forall|v: Seq<char>| #[trigger] self.view().dom().contains(v) implies meets(
                self.view()[v],
                values(*bindings)[v],
            ) by {
                assert(self.0.names().contains(v));
            }
        }
        true
    }
}

/// Splits what stands before the `=` into the variable's name and the sign.
pub fn read_variable(var: &str) -> (read: (String, bool))
    ensures
        read.0@ == variable_name(var@),
        read.1 == is_negative(var@),
{
    proof {
        reveal_strlit("$");
    }
    let starts = var.unicode_len() > 0 && var.get_char(0) == '$';
    let full = if starts {
        var.to_owned()
    } else {
        "$".to_owned().concat(var)
    };
    assert(full@ =~= with_dollar(var@));
    let n: usize = full.as_str().unicode_len();
    let negative = full.as_str().get_char(n - 1) == '!';
    if negative {
        let name = full.as_str().substring_char(0, n - 1).to_owned();
        assert(name@ =~= full@.drop_last());
        (name, true)
    } else {
        (full, false)
    }
}

/// Takes an argument of the form `var=regex` apart and looks the variable up.
pub fn split_argument(variables: &Vec<String>, arg: &String) -> (parts: Result<
    (String, bool, String),
    RegexError,
>)
    ensures
        match parts {
            Ok((name, negative, pattern)) => argument_parts(texts(variables@).to_set(), arg@)
                == Ok::<_, RegexErrorView>((name@, negative, pattern@)),
            Err(err) => argument_parts(texts(variables@).to_set(), arg@) == Err::<
                (Seq<char>, bool, Seq<char>),
                _,
            >(err.view()),
        },
{
    match cut_text(arg.as_str(), '=') {
        None => Err(RegexError::InvalidArg(arg.clone())),
        Some((var, pattern)) => {
            let (name, negative) = read_variable(var);
            if is_among(&name, variables) {
                Ok((name, negative, pattern.to_owned()))
            } else {
                Err(RegexError::InvalidVariable(var.to_owned()))
            }
        },
    }
}

/// Puts a variable and its compiled expression together.
pub fn make_constraint(
    name: String,
    negative: bool,
    regex: Result<Regex, regex::Error>,
) -> (constraint: Result<(String, Constraint), RegexError>)
    ensures
        match constraint {
            Ok((n, c)) => constraint_on(name@, negative, regex) == Ok::<_, RegexErrorView>((n@, c)),
            Err(err) => constraint_on(name@, negative, regex) == Err::<(Seq<char>, Constraint), _>(
                err.view(),
            ),
        },
{
    match regex {
        Ok(regex) => Ok((name, (negative, regex))),
        Err(err) => Err(RegexError::from(err)),
    }
}

/// Reads one argument of the form `var=regex`.
fn read_constraint(variables: &Vec<String>, arg: &String) -> (read: Result<
    (String, Constraint),
    RegexError,
>)
    ensures
        match read {
            Ok((name, constraint)) => read_argument(texts(variables@).to_set(), arg@) == Ok::<
                _,
                RegexErrorView,
            >((name@, constraint)),
            Err(err) => read_argument(texts(variables@).to_set(), arg@) == Err::<
                (Seq<char>, Constraint),
                _,
            >(err.view()),
        },
{
    match split_argument(variables, arg) {
        Ok((name, negative, pattern)) => make_constraint(
            name,
            negative,
            Regex::new(pattern.as_str()),
        ),
        Err(err) => Err(err),
    }
}

/// Reads the arguments of the form `var=regex` and checks them against the
/// variables of the queries.
pub fn process_regexes(variables: &Vec<String>, regexes: &Vec<String>) -> (constraints: Result<
    RegexMap,
    RegexError,
>)
    ensures
        match constraints {
            Ok(map) => read_arguments(texts(variables@).to_set(), texts(regexes@)) == Ok::<
                _,
                RegexErrorView,
            >(map.view()),
            Err(err) => read_arguments(texts(variables@).to_set(), texts(regexes@)) == Err::<
                Map<Seq<char>, Constraint>,
                _,
            >(err.view()),
        },
{
    let mut table: Table<Constraint> = Table::new();
    let ghost names = texts(variables@).to_set();
    let ghost args = texts(regexes@);
    for i in 0..regexes.len()
        invariant
            args == texts(regexes@),
            names == texts(variables@).to_set(),
            read_arguments(names, args.take(i as int)) == Ok::<_, RegexErrorView>(table.view()),
    {
        proof {
            assert(args.take(i + 1).drop_last() =~= args.take(i as int));
            assert(args.take(i + 1).last() == regexes@[i as int]@);
        }
        match read_constraint(variables, &regexes[i]) {
            Ok((name, constraint)) => {
                table = table.insert(name, constraint);
            },
            Err(err) => {
                proof {
                    lemma_first_refusal(names, args, i as int);
                }
                return Err(err);
            },
        }
    }
    assert(args.take(regexes@.len() as int) =~= args);
    Ok(RegexMap(table))
}

/// The first argument that is refused decides, whatever comes after it.
proof fn lemma_first_refusal(variables: Set<Seq<char>>, args: Seq<Seq<char>>, i: int)
    requires
        0 <= i < args.len(),
        read_arguments(variables, args.take(i)) is Ok,
        read_argument(variables, args[i]) is Err,
    ensures
        read_arguments(variables, args) == Err::<Map<Seq<char>, Constraint>, _>(
            read_argument(variables, args[i])->Err_0,
        ),
    decreases args.len(),
{
    if i == args.len() - 1 {
        assert(args.drop_last() =~= args.take(i));
    } else {
        assert(args.drop_last().take(i) =~= args.take(i));
        lemma_first_refusal(variables, args.drop_last(), i);
    }
}

/// The arguments are accepted together exactly where each is accepted by itself.
pub proof fn arguments_are_checked_one_by_one(variables: Set<Seq<char>>, args: Seq<Seq<char>>)
    ensures
        read_arguments(variables, args) is Ok <==> forall|i: int|
            0 <= i < args.len() ==> #[trigger] read_argument(variables, args[i]) is Ok,
    decreases args.len(),
{
    if args.len() > 0 {
        let before = args.drop_last();
        arguments_are_checked_one_by_one(variables, before);
        if read_arguments(variables, args) is Ok {
            assert forall|i: int| 0 <= i < args.len() implies #[trigger] read_argument(
                variables,
                args[i],
            ) is Ok by {
                if i < args.len() - 1 {
                    assert(read_argument(variables, before[i]) is Ok);
                }
            }
        }
        if forall|i: int|
            0 <= i < args.len() ==> #[trigger] read_argument(variables, args[i]) is Ok {
            assert forall|i: int| 0 <= i < before.len() implies #[trigger] read_argument(
                variables,
                before[i],
            ) is Ok by {
                assert(read_argument(variables, args[i]) is Ok);
            }
            assert(read_argument(variables, args[args.len() - 1]) is Ok);
        }
    }
}

/// The error for refused arguments is the one for the first that is refused.
pub proof fn first_refused_argument_decides(
    variables: Set<Seq<char>>,
    args: Seq<Seq<char>>,
    i: int,
)
    requires
        0 <= i < args.len(),
        read_argument(variables, args[i]) is Err,
        forall|j: int| 0 <= j < i ==> #[trigger] read_argument(variables, args[j]) is Ok,
    ensures
        read_arguments(variables, args) == Err::<Map<Seq<char>, Constraint>, _>(
            read_argument(variables, args[i])->Err_0,
        ),
{
    let before = args.take(i);
    assert forall|j: int| 0 <= j < before.len() implies #[trigger] read_argument(
        variables,
        before[j],
    ) is Ok by {
        assert(read_argument(variables, args[j]) is Ok);
    }
    arguments_are_checked_one_by_one(variables, before);
    lemma_first_refusal(variables, args, i);
}

/// Only variables of the queries are constrained.
pub proof fn constraints_are_on_known_variables(variables: Set<Seq<char>>, args: Seq<Seq<char>>)
    requires
        read_arguments(variables, args) is Ok,
    ensures
        read_arguments(variables, args)->Ok_0.dom().subset_of(variables),
    decreases args.len(),
{
    if args.len() > 0 {
        constraints_are_on_known_variables(variables, args.drop_last());
    }
}

/// A later constraint on a variable takes the place of an earlier one, and leaves the
/// others as they are.
pub proof fn last_constraint_wins(
    variables: Set<Seq<char>>,
    args: Seq<Seq<char>>,
    arg: Seq<char>,
    other: Seq<char>,
)
    requires
        read_arguments(variables, args.push(arg)) is Ok,
    ensures
        read_arguments(variables, args) is Ok,
        read_argument(variables, arg) is Ok,
        ({
            let before = read_arguments(variables, args)->Ok_0;
            let after = read_arguments(variables, args.push(arg))->Ok_0;
            let (name, constraint) = read_argument(variables, arg)->Ok_0;
            &&& after.dom().contains(name) && after[name] == constraint
            &&& other != name ==> (after.dom().contains(other) <==> before.dom().contains(other))
                && after[other] == before[other]
        }),
{
    assert(args.push(arg).drop_last() =~= args);
}

/// The `$` of a variable may be left out.
pub proof fn dollar_is_optional(var: Seq<char>)
    requires
        var.len() == 0 || var[0] != '$',
    ensures
        variable_name(seq!['$'] + var) == variable_name(var),
        is_negative(seq!['$'] + var) == is_negative(var),
{
    assert(with_dollar(seq!['$'] + var) == seq!['$'] + var);
}

/// A `!` after the variable means the same variable, with the opposite demand.
pub proof fn bang_negates(var: Seq<char>, regex: Regex, value: Seq<char>)
    requires
        !is_negative(var),
    ensures
        is_negative(var.push('!')),
        variable_name(var.push('!')) == variable_name(var),
        meets((true, regex), value) == !meets((false, regex), value),
{
    if var.len() > 0 && var[0] == '$' {
        assert(with_dollar(var.push('!')) =~= with_dollar(var).push('!'));
    } else {
        assert(with_dollar(var.push('!')) =~= with_dollar(var).push('!'));
    }
    assert(with_dollar(var).push('!').drop_last() =~= with_dollar(var));
}

/// Without constraints every match is allowed, whatever it captured.
pub proof fn no_constraints_allow_everything(bindings: Map<Seq<char>, Seq<char>>)
    ensures
        all_bound(Map::empty(), bindings),
        allows(Map::empty(), bindings),
{
}

/// One more constraint never allows a match that the others do not allow.
pub proof fn constraints_only_narrow(
    constraints: Map<Seq<char>, Constraint>,
    name: Seq<char>,
    constraint: Constraint,
    bindings: Map<Seq<char>, Seq<char>>,
)
    requires
        !constraints.dom().contains(name),
    ensures
        allows(constraints.insert(name, constraint), bindings) == (allows(constraints, bindings)
            && meets(constraint, bindings[name])),
{
    let more = constraints.insert(name, constraint);
    if allows(more, bindings) {
        assert(more.dom().contains(name));
        assert forall|var: Seq<char>| #[trigger] constraints.dom().contains(var) implies meets(
            constraints[var],
            bindings[var],
        ) by {
            assert(more.dom().contains(var));
        }
    }
}

} // verus!
