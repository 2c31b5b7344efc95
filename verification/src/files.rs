//! Which files are searched.

use regex::Regex;
use vstd::prelude::*;
use vstd::string::*;
use vstd::utf8::*;
use weggli::query::QueryTree;

use crate::constraints::RegexError;
use crate::engine::{compiled, identifiers, query_identifiers, query_variables, regex_matches, variables};
use crate::pattern::SourceTree;
use crate::text::{contains_all, decode_text, is_among, occurs_at, occurs_in, texts};

verus! {

/// What follows the last dot of a file's name.
pub enum Extension {
    /// The name has no extension.
    Absent,
    /// The extension is not Unicode.
    NotUnicode,
    /// The extension.
    Text(String),
}

/// The extension as it is looked up: one that is not Unicode counts as empty.
pub open spec fn extension_text(extension: Extension) -> Option<Seq<char>> {
    match extension {
        Extension::Absent => None,
        Extension::NotUnicode => Some(Seq::empty()),
        Extension::Text(text) => Some(text@),
    }
}

/// Whether a directory entry of this name is passed over, with all that is below
/// it. `name` is `None` where the name is not Unicode.
pub fn is_hidden(name: Option<&str>) -> (hidden: bool)
    ensures
        hidden == (name matches Some(s) && s@.len() > 0 && s@[0] == '.'),
{
    match name {
        Some(s) => s.unicode_len() > 0 && s.get_char(0) == '.',
        None => false,
    }
}

/// Whether an entry is a file with one of the wanted extensions.
pub fn is_wanted(is_dir: bool, extension: &Extension, extensions: &Vec<String>) -> (wanted: bool)
    ensures
        wanted == (!is_dir && extension_text(*extension) is Some && texts(
            extensions@,
        ).to_set().contains(extension_text(*extension)->0)),
        wanted == match *extension {
            Extension::Absent => false,
            Extension::NotUnicode => !is_dir && exists|i: int|
                0 <= i < extensions@.len() && (#[trigger] extensions@[i])@ == Seq::<char>::empty(),
            Extension::Text(text) => !is_dir && exists|i: int|
                0 <= i < extensions@.len() && (#[trigger] extensions@[i])@ == text@,
        },
{
    if is_dir {
        return false;
    }
    match extension {
        Extension::Absent => false,
        Extension::NotUnicode => is_among(&String::new(), extensions),
        Extension::Text(text) => is_among(text, extensions),
    }
}

/// All of `patterns` compile, to `regexes`.
pub open spec fn compile_to(patterns: Seq<Seq<char>>, regexes: Seq<Regex>) -> bool {
    &&& regexes.len() == patterns.len()
    &&& forall|i: int|
        0 <= i < patterns.len() ==> #[trigger] compiled(patterns[i]) == Ok::<_, regex::Error>(
            regexes[i],
        )
}

/// Pattern `i` is the first that does not compile, and `err` says why.
pub open spec fn fails_at(patterns: Seq<Seq<char>>, i: int, err: regex::Error) -> bool {
    &&& 0 <= i < patterns.len()
    &&& compiled(patterns[i]) == Err::<Regex, _>(err)
    &&& forall|j: int| 0 <= j < i ==> #[trigger] compiled(patterns[j]) is Ok
}

/// Compiles `patterns`, or gives the error for the first that does not compile.
pub fn compile_regexes(patterns: &Vec<String>) -> (regexes: Result<Vec<Regex>, RegexError>)
    ensures
        match regexes {
            Ok(rs) => compile_to(texts(patterns@), rs@),
            Err(e) => e is InvalidRegex && exists|i: int| #[trigger]
                fails_at(texts(patterns@), i, e->InvalidRegex_0),
        },
{
    let mut list: Vec<Regex> = Vec::new();
    let ghost wanted = texts(patterns@);
    for i in 0..patterns.len()
        invariant
            wanted == texts(patterns@),
            list@.len() == i,
            forall|j: int|
                0 <= j < i ==> #[trigger] compiled(wanted[j]) == Ok::<_, regex::Error>(list@[j]),
    {
        match Regex::new(patterns[i].as_str()) {
            Ok(regex) => list.push(regex),
            Err(err) => {
                let error = RegexError::from(err);
                assert(fails_at(wanted, i as int, error->InvalidRegex_0));
                return Err(error);
            },
        }
    }
    Ok(list)
}

/// One of `regexes` matches `text`.
pub open spec fn any_matches(regexes: Seq<Regex>, text: Seq<char>) -> bool {
    exists|i: int| 0 <= i < regexes.len() && regex_matches(#[trigger] regexes[i], text)
}

/// Whether one of `regexes` matches `text`.
pub fn any_match(regexes: &Vec<Regex>, text: &str) -> (found: bool)
    ensures
        found == any_matches(regexes@, text@),
{
    for i in 0..regexes.len()
        invariant
            forall|j: int| 0 <= j < i ==> !regex_matches(#[trigger] regexes@[j], text@),
    {
        if regexes[i].is_match(text) {
            return true;
        }
    }
    false
}

/// A path stays in the search: no excluding expression matches it, and one of the
/// including ones does, if there are any.
pub open spec fn path_stays(excluded: Seq<Regex>, included: Seq<Regex>, path: Seq<char>) -> bool {
    !any_matches(excluded, path) && (included.len() == 0 || any_matches(included, path))
}

/// Whether a path stays in the search: `excluded` and `included` say whether an
/// excluding or an including expression matches it, `restricted` whether there are
/// including expressions at all.
pub fn decide_path(excluded: bool, restricted: bool, included: bool) -> (stays: bool)
    ensures
        stays == (!excluded && (restricted ==> included)),
{
    !excluded && (!restricted || included)
}

/// Whether a path stays in the search.
pub fn keeps_path(excluded: &Vec<Regex>, included: &Vec<Regex>, path: &str) -> (keeps: bool)
    ensures
        keeps == path_stays(excluded@, included@, path@),
        keeps == ((forall|i: int|
            0 <= i < excluded@.len() ==> !regex_matches(#[trigger] excluded@[i], path@)) && (
        included@.len() == 0 || exists|i: int|
            0 <= i < included@.len() && regex_matches(#[trigger] included@[i], path@))),
{
    let restricted = included.len() > 0;
    decide_path(any_match(excluded, path), restricted, restricted && any_match(included, path))
}

/// A query together with the identifiers that it mentions.
pub struct WorkItem {
    qt: QueryTree,
    identifiers: Vec<String>,
}

impl WorkItem {
    #[verifier::type_invariant]
    spec fn inv(self) -> bool {
        texts(self.identifiers@) == query_identifiers(self.qt)
    }

    /// The query.
    pub closed spec fn query(self) -> QueryTree {
        self.qt
    }

    /// Prepares a query for the search.
    pub fn new(qt: QueryTree) -> (item: WorkItem)
        ensures
            item.query() == qt,
    {
        let identifiers = identifiers(&qt);
        WorkItem { qt, identifiers }
    }

    /// The query.
    pub fn query_tree(&self) -> (qt: &QueryTree)
        ensures
            *qt == self.query(),
    {
        &self.qt
    }

    /// Whether `source` holds all identifiers that the query mentions.
    pub fn may_match(&self, source: &str) -> (may: bool)
        ensures
            may == holds_all(source@, query_identifiers(self.query())),
    {
        proof {
            use_type_invariant(self);
            assert forall|i: int| 0 <= i < self.identifiers@.len() implies query_identifiers(
                self.qt,
            )[i] == (#[trigger] self.identifiers@[i])@ by {}
        }
        contains_all(source, &self.identifiers)
    }
}

/// Every one of `names` occurs in `source`.
pub open spec fn holds_all(source: Seq<char>, names: Seq<Seq<char>>) -> bool {
    forall|i: int| 0 <= i < names.len() ==> occurs_in(#[trigger] names[i], source)
}

/// One of the queries can match in `source`, by the identifiers that it mentions.
pub open spec fn worth_parsing(work: Seq<WorkItem>, source: Seq<char>) -> bool {
    exists|i: int|
        0 <= i < work.len() && holds_all(source, query_identifiers((#[trigger] work[i]).query()))
}

/// Whether one of the queries can match in `source`.
pub fn is_potential_match(work: &Vec<WorkItem>, source: &str) -> (potential: bool)
    ensures
        potential == worth_parsing(work@, source@),
{
    for i in 0..work.len()
        invariant
            forall|j: int|
                0 <= j < i ==> !holds_all(
                    source@,
                    query_identifiers((#[trigger] work@[j]).query()),
                ),
    {
        if work[i].may_match(source) {
            return true;
        }
    }
    false
}

/// Parses the content of a file where it is UTF-8 and one of the queries can match
/// in it.
pub fn parse_content(content: &[u8], work: &Vec<WorkItem>, cpp: bool) -> (file: Option<SourceTree>)
    requires
        content@.len() < u32::MAX,
    ensures
        match file {
            Some(f) => {
                &&& valid_utf8(content@)
                &&& worth_parsing(work@, f.text())
                &&& f.text() == decode_utf8(content@)
                &&& f.is_cpp() == cpp
            },
            None => valid_utf8(content@) ==> !worth_parsing(work@, decode_utf8(content@)),
        },
{
    match decode_text(content) {
        Some(source) => if is_potential_match(work, source) {
            Some(SourceTree::parse(source.to_owned(), cpp))
        } else {
            None
        },
        None => None,
    }
}

/// Adds the variables of a query to those of the queries before it.
fn add_variables(known: Vec<String>, qt: &QueryTree) -> (all: Vec<String>)
    requires
        texts(known@).no_duplicates(),
    ensures
        texts(all@).no_duplicates(),
        texts(all@).to_set() == texts(known@).to_set().union(query_variables(*qt)),
{
    let new = variables(qt);
    let mut all = known;
    let ghost before = texts(known@);
    let ghost fresh = texts(new@);
    for i in 0..new.len()
        invariant
            fresh == texts(new@),
            texts(all@).no_duplicates(),
            texts(all@).to_set() =~= before.to_set().union(fresh.take(i as int).to_set()),
    {
        assert(fresh.take(i + 1) =~= fresh.take(i as int).push(new@[i as int]@));
        let ghost seen = texts(all@);
        if !is_among(&new[i], &all) {
            all.push(new[i].clone());
            assert(texts(all@) =~= seen.push(new@[i as int]@));
        }
        proof {
            lemma_push_set(fresh.take(i as int), new@[i as int]@);
            lemma_push_set(seen, new@[i as int]@);
        }
    }
    assert(fresh.take(new@.len() as int) =~= fresh);
    all
}

/// The elements of a sequence with one more at its end.
proof fn lemma_push_set(s: Seq<Seq<char>>, x: Seq<char>)
    ensures
        s.push(x).to_set() =~= s.to_set().insert(x),
{
    broadcast use vstd::seq_lib::group_seq_properties;
}

/// The variables that the queries mention between them.
pub open spec fn all_variables(queries: Seq<QueryTree>) -> Set<Seq<char>>
    decreases queries.len(),
{
    if queries.len() == 0 {
        Set::empty()
    } else {
        all_variables(queries.drop_last()).union(query_variables(queries.last()))
    }
}

/// Prepares the queries for the search, and collects the variables that they mention.
pub fn prepare_work(queries: Vec<QueryTree>) -> (prepared: (Vec<WorkItem>, Vec<String>))
    ensures
        prepared.0@.len() == queries@.len(),
        forall|i: int|
            0 <= i < queries@.len() ==> (#[trigger] prepared.0@[i]).query() == queries@[i],
        texts(prepared.1@).no_duplicates(),
        texts(prepared.1@).to_set() == all_variables(queries@),
{
    let mut work: Vec<WorkItem> = Vec::new();
    let mut names: Vec<String> = Vec::new();
    proof {
        assert(texts(names@).to_set() =~= Set::empty());
        assert(queries@.take(0) =~= Seq::empty());
    }
    let ghost all = queries@;
    for qt in it: queries
        invariant
            it.seq() == all,
            work@.len() == it.index(),
            forall|i: int| 0 <= i < work@.len() ==> (#[trigger] work@[i]).query() == all[i],
            texts(names@).no_duplicates(),
            texts(names@).to_set() == all_variables(all.take(it.index() as int)),
    {
        proof {
            let k = it.index() as int;
            assert(all.take(k + 1).drop_last() =~= all.take(k));
            assert(all.take(k + 1).last() == qt);
        }
        names = add_variables(names, &qt);
        work.push(WorkItem::new(qt));
    }
    assert(all.take(all.len() as int) =~= all);
    (work, names)
}

/// A path that an excluding expression matches is not searched, whatever the
/// including expressions say.
pub proof fn exclusion_wins(excluded: Seq<Regex>, included: Seq<Regex>, path: Seq<char>)
    requires
        any_matches(excluded, path),
    ensures
        !path_stays(excluded, included, path),
{
}

/// Without expressions every path is searched.
pub proof fn no_filters_keep_every_path(path: Seq<char>)
    ensures
        path_stays(Seq::empty(), Seq::empty(), path),
{
}

/// One more excluding expression only takes away the paths that it matches.
pub proof fn exclusion_only_narrows(
    excluded: Seq<Regex>,
    included: Seq<Regex>,
    regex: Regex,
    path: Seq<char>,
)
    ensures
        path_stays(excluded.push(regex), included, path) == (path_stays(excluded, included, path)
            && !regex_matches(regex, path)),
{
    lemma_any_push(excluded, regex, path);
}

/// One more including expression, where there are some, only adds paths that it matches.
pub proof fn inclusion_only_widens(
    excluded: Seq<Regex>,
    included: Seq<Regex>,
    regex: Regex,
    path: Seq<char>,
)
    requires
        included.len() > 0,
    ensures
        path_stays(excluded, included.push(regex), path) == (path_stays(excluded, included, path)
            || (!any_matches(excluded, path) && regex_matches(regex, path))),
{
    lemma_any_push(included, regex, path);
}

proof fn lemma_any_push(regexes: Seq<Regex>, regex: Regex, text: Seq<char>)
    ensures
        any_matches(regexes.push(regex), text) == (any_matches(regexes, text) || regex_matches(
            regex,
            text,
        )),
{
    let more = regexes.push(regex);
    if any_matches(regexes, text) {
        let i = choose|i: int| 0 <= i < regexes.len() && regex_matches(#[trigger] regexes[i], text);
        assert(regex_matches(more[i], text));
    }
    if regex_matches(regex, text) {
        assert(regex_matches(more[regexes.len() as int], text));
    }
    if any_matches(more, text) && !regex_matches(regex, text) {
        let i = choose|i: int| 0 <= i < more.len() && regex_matches(#[trigger] more[i], text);
        assert(regex_matches(regexes[i], text));
    }
}

/// A query that mentions no identifier makes every file worth parsing.
pub proof fn query_without_identifiers_reads_every_file(
    work: Seq<WorkItem>,
    i: int,
    source: Seq<char>,
)
    requires
        0 <= i < work.len(),
        query_identifiers(work[i].query()).len() == 0,
    ensures
        worth_parsing(work, source),
{
    assert(holds_all(source, query_identifiers(work[i].query())));
}

/// What makes a text worth parsing makes every longer text worth parsing.
pub proof fn longer_texts_stay_worth_parsing(
    work: Seq<WorkItem>,
    before: Seq<char>,
    source: Seq<char>,
    after: Seq<char>,
)
    requires
        worth_parsing(work, source),
    ensures
        worth_parsing(work, before + source + after),
{
    let i = choose|i: int|
        0 <= i < work.len() && holds_all(source, query_identifiers((#[trigger] work[i]).query()));
    let names = query_identifiers(work[i].query());
    let longer = before + source + after;
    assert forall|j: int| 0 <= j < names.len() implies occurs_in(
        #[trigger] names[j],
        longer,
    ) by {
        assert(occurs_in(names[j], source));
        let k = choose|k: int| #[trigger] occurs_at(names[j], source, k);
        assert(longer.subrange(before.len() + k, before.len() + k + names[j].len())
            =~= source.subrange(k, k + names[j].len()));
        assert(occurs_at(names[j], longer, before.len() + k));
    }
    assert(holds_all(longer, query_identifiers(work[i].query())));
}

} // verus!
