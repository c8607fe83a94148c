//! Preparing registrations and metadata updates: the text indexed for
//! search, the stored description, and which scripts the size limit evicts.

use vstd::prelude::*;

use crate::models::{opt_view, Function};
use crate::parser::{dependencies_of, functions_of, PythonParser};
use crate::calendar::in_time_range;
use crate::hash::{content_hash, sha256_string};
use crate::paths::{identifier, is_absolute, script_identifier, script_storage_path, storage_path};
use crate::text::{
    all_white_space, is_white_space, join, join_strings, lemma_blank_iff_white_space,
    lemma_join_adjacent, lemma_join_occurs,
    lemma_join_white_space, lemma_occurs_in_trim, lemma_occurs_transitive, lemma_trim_idempotent,
    lemma_trim_occurs, occurs_in, trim, trimmed, views,
};

verus! {

/// The text indexed for search: description, tags, function names,
/// function signatures, dependencies and extra terms, each list joined by
/// spaces, the six joined by spaces, the whole trimmed.
pub open spec fn search_text(
    description: Seq<char>,
    tags: Seq<Seq<char>>,
    function_names: Seq<Seq<char>>,
    function_signatures: Seq<Seq<char>>,
    dependencies: Seq<Seq<char>>,
    extra_terms: Seq<Seq<char>>,
) -> Seq<char> {
    let ghost sp = seq![' '];
    trim(
        join(
            seq![
                description,
                join(tags, sp),
                join(function_names, sp),
                join(function_signatures, sp),
                join(dependencies, sp),
                join(extra_terms, sp),
            ],
            sp,
        ),
    )
}

/// A part of a text keeps its trimmed text in the trimmed whole.
proof fn lemma_part_in_trimmed(x: Seq<char>, whole: Seq<char>)
    requires
        occurs_in(x, whole),
    ensures
        occurs_in(trim(x), trim(whole)),
{
    if trim(x).len() == 0 {
        assert(trim(whole).subrange(0int, 0int + trim(x).len()) =~= trim(x));
    } else {
        lemma_trim_occurs(x);
        lemma_occurs_transitive(trim(x), x, whole);
        lemma_trim_idempotent(x);
        lemma_occurs_in_trim(trim(x), whole);
    }
}

/// Each value of one of the six fields keeps its trimmed text in the
/// search text.
proof fn lemma_field_value_in_text(
    fields: Seq<Seq<char>>,
    f: int,
    values: Seq<Seq<char>>,
    i: int,
)
    requires
        fields.len() == 6,
        1 <= f < 6,
        fields[f] == join(values, seq![' ']),
        0 <= i < values.len(),
    ensures
        occurs_in(trim(values[i]), trim(join(fields, seq![' ']))),
{
    lemma_join_occurs(values, seq![' '], i);
    lemma_join_occurs(fields, seq![' '], f);
    lemma_occurs_transitive(values[i], fields[f], join(fields, seq![' ']));
    lemma_part_in_trimmed(values[i], join(fields, seq![' ']));
}

/// All the values of a list are blank.
pub open spec fn all_blank(values: Seq<Seq<char>>) -> bool {
    forall|i: int| 0 <= i < values.len() ==> trim(#[trigger] values[i]).len() == 0
}

proof fn lemma_blank_join(values: Seq<Seq<char>>)
    requires
        all_blank(values),
    ensures
        all_white_space(join(values, seq![' '])),
{
    assert forall|i: int| 0 <= i < values.len() implies all_white_space(#[trigger] values[i]) by {
        lemma_blank_iff_white_space(values[i]);
    }
    assert(all_white_space(seq![' ']));
    lemma_join_white_space(values, seq![' ']);
}

/// The search text is trimmed; the trimmed description and the trimmed
/// text of every tag, function name, signature, dependency and extra term
/// occur in it; and it is empty when all of them are blank.
pub proof fn lemma_search_text_contents(
    description: Seq<char>,
    tags: Seq<Seq<char>>,
    function_names: Seq<Seq<char>>,
    function_signatures: Seq<Seq<char>>,
    dependencies: Seq<Seq<char>>,
    extra_terms: Seq<Seq<char>>,
)
    ensures
        ({
            let st = search_text(
                description,
                tags,
                function_names,
                function_signatures,
                dependencies,
                extra_terms,
            );
            &&& trim(st) == st
            &&& occurs_in(trim(description), st)
            &&& forall|i: int| 0 <= i < tags.len() ==> occurs_in(trim(#[trigger] tags[i]), st)
            &&& forall|i: int|
                0 <= i < function_names.len() ==> occurs_in(trim(#[trigger] function_names[i]), st)
            &&& forall|i: int|
                0 <= i < function_signatures.len() ==> occurs_in(
                    trim(#[trigger] function_signatures[i]),
                    st,
                )
            &&& forall|i: int|
                0 <= i < dependencies.len() ==> occurs_in(trim(#[trigger] dependencies[i]), st)
            &&& forall|i: int|
                0 <= i < extra_terms.len() ==> occurs_in(trim(#[trigger] extra_terms[i]), st)
            &&& (trim(description).len() == 0 && all_blank(tags) && all_blank(function_names)
                && all_blank(function_signatures) && all_blank(dependencies) && all_blank(
                extra_terms,
            )) ==> st.len() == 0
        }),
{
    let sp = seq![' '];
    let fields = seq![
        description,
        join(tags, sp),
        join(function_names, sp),
        join(function_signatures, sp),
        join(dependencies, sp),
        join(extra_terms, sp),
    ];
    let whole = join(fields, sp);
    let st = trim(whole);
    assert(st == search_text(
        description,
        tags,
        function_names,
        function_signatures,
        dependencies,
        extra_terms,
    ));
    lemma_trim_idempotent(whole);
    lemma_join_occurs(fields, sp, 0);
    lemma_part_in_trimmed(description, whole);
    assert forall|i: int| 0 <= i < tags.len() implies occurs_in(trim(#[trigger] tags[i]), st) by {
        lemma_field_value_in_text(fields, 1, tags, i);
    }
    assert forall|i: int| 0 <= i < function_names.len() implies occurs_in(
        trim(#[trigger] function_names[i]),
        st,
    ) by {
        lemma_field_value_in_text(fields, 2, function_names, i);
    }
    assert forall|i: int| 0 <= i < function_signatures.len() implies occurs_in(
        trim(#[trigger] function_signatures[i]),
        st,
    ) by {
        lemma_field_value_in_text(fields, 3, function_signatures, i);
    }
    assert forall|i: int| 0 <= i < dependencies.len() implies occurs_in(
        trim(#[trigger] dependencies[i]),
        st,
    ) by {
        lemma_field_value_in_text(fields, 4, dependencies, i);
    }
    assert forall|i: int| 0 <= i < extra_terms.len() implies occurs_in(
        trim(#[trigger] extra_terms[i]),
        st,
    ) by {
        lemma_field_value_in_text(fields, 5, extra_terms, i);
    }
    if trim(description).len() == 0 && all_blank(tags) && all_blank(function_names) && all_blank(
        function_signatures,
    ) && all_blank(dependencies) && all_blank(extra_terms) {
        lemma_blank_iff_white_space(description);
        lemma_blank_join(tags);
        lemma_blank_join(function_names);
        lemma_blank_join(function_signatures);
        lemma_blank_join(dependencies);
        lemma_blank_join(extra_terms);
        assert(all_white_space(sp));
        assert forall|i: int| 0 <= i < fields.len() implies all_white_space(#[trigger] fields[i]) by {}
        lemma_join_white_space(fields, sp);
        lemma_blank_iff_white_space(whole);
    }
}

/// Two consecutive values of one field are separated by a single space.
proof fn lemma_field_adjacent_in_text(
    fields: Seq<Seq<char>>,
    f: int,
    values: Seq<Seq<char>>,
    i: int,
)
    requires
        fields.len() == 6,
        1 <= f < 6,
        fields[f] == join(values, seq![' ']),
        0 <= i,
        i + 1 < values.len(),
        values[i].len() > 0,
        !is_white_space(values[i][0]),
        values[i + 1].len() > 0,
        !is_white_space(values[i + 1].last()),
    ensures
        occurs_in(values[i] + seq![' '] + values[i + 1], trim(join(fields, seq![' ']))),
{
    let z = values[i] + seq![' '] + values[i + 1];
    lemma_join_adjacent(values, seq![' '], i);
    lemma_join_occurs(fields, seq![' '], f);
    lemma_occurs_transitive(z, fields[f], join(fields, seq![' ']));
    assert(z[0] == values[i][0]);
    assert(z.last() == values[i + 1].last());
    lemma_occurs_in_trim(z, join(fields, seq![' ']));
}

/// The search text is the description, then the tags, the function names,
/// the signatures, the dependencies and the extra terms, each list's values
/// joined by single spaces and the six parts separated by single spaces,
/// trimmed at both ends.
pub proof fn lemma_search_text_layout(
    description: Seq<char>,
    tags: Seq<Seq<char>>,
    function_names: Seq<Seq<char>>,
    function_signatures: Seq<Seq<char>>,
    dependencies: Seq<Seq<char>>,
    extra_terms: Seq<Seq<char>>,
)
    ensures
        search_text(
            description,
            tags,
            function_names,
            function_signatures,
            dependencies,
            extra_terms,
        ) == trim(
            description + seq![' '] + join(tags, seq![' ']) + seq![' '] + join(
                function_names,
                seq![' '],
            ) + seq![' '] + join(function_signatures, seq![' ']) + seq![' '] + join(
                dependencies,
                seq![' '],
            ) + seq![' '] + join(extra_terms, seq![' ']),
        ),
{
    let sp = seq![' '];
    let fields = seq![
        description,
        join(tags, sp),
        join(function_names, sp),
        join(function_signatures, sp),
        join(dependencies, sp),
        join(extra_terms, sp),
    ];
    assert(fields.drop_last().drop_last().drop_last().drop_last().drop_last() =~= seq![description]);
    assert(join(fields, sp) =~= description + sp + join(tags, sp) + sp + join(function_names, sp)
        + sp + join(function_signatures, sp) + sp + join(dependencies, sp) + sp + join(
        extra_terms,
        sp,
    )) by {
        reveal_with_fuel(join, 7);
        assert(fields.drop_last().drop_last().drop_last().drop_last() =~= seq![
            description,
            join(tags, sp),
        ]);
        assert(fields.drop_last().drop_last().drop_last() =~= seq![
            description,
            join(tags, sp),
            join(function_names, sp),
        ]);
        assert(fields.drop_last().drop_last() =~= seq![
            description,
            join(tags, sp),
            join(function_names, sp),
            join(function_signatures, sp),
        ]);
        assert(fields.drop_last() =~= seq![
            description,
            join(tags, sp),
            join(function_names, sp),
            join(function_signatures, sp),
            join(dependencies, sp),
        ]);
    }
}

/// In the search text, two consecutive tags, function names, signatures,
/// dependencies or extra terms appear separated by a single space, so each
/// stays a word of its own (for values that start and end with characters
/// other than white space).
pub proof fn lemma_search_text_separates_values(
    description: Seq<char>,
    tags: Seq<Seq<char>>,
    function_names: Seq<Seq<char>>,
    function_signatures: Seq<Seq<char>>,
    dependencies: Seq<Seq<char>>,
    extra_terms: Seq<Seq<char>>,
    f: int,
    i: int,
)
    requires
        1 <= f < 6,
        ({
            let values = if f == 1 {
                tags
            } else if f == 2 {
                function_names
            } else if f == 3 {
                function_signatures
            } else if f == 4 {
                dependencies
            } else {
                extra_terms
            };
            &&& 0 <= i
            &&& i + 1 < values.len()
            &&& values[i].len() > 0
            &&& !is_white_space(values[i][0])
            &&& values[i + 1].len() > 0
            &&& !is_white_space(values[i + 1].last())
        }),
    ensures
        ({
            let values = if f == 1 {
                tags
            } else if f == 2 {
                function_names
            } else if f == 3 {
                function_signatures
            } else if f == 4 {
                dependencies
            } else {
                extra_terms
            };
            occurs_in(
                values[i] + seq![' '] + values[i + 1],
                search_text(
                    description,
                    tags,
                    function_names,
                    function_signatures,
                    dependencies,
                    extra_terms,
                ),
            )
        }),
{
    let sp = seq![' '];
    let fields = seq![
        description,
        join(tags, sp),
        join(function_names, sp),
        join(function_signatures, sp),
        join(dependencies, sp),
        join(extra_terms, sp),
    ];
    let values = if f == 1 {
        tags
    } else if f == 2 {
        function_names
    } else if f == 3 {
        function_signatures
    } else if f == 4 {
        dependencies
    } else {
        extra_terms
    };
    lemma_field_adjacent_in_text(fields, f, values, i);
}

/// Builds the text indexed for search.
pub fn build_search_text(
    description: &str,
    tags: &[String],
    function_names: &[String],
    function_signatures: &[String],
    dependencies: &[String],
    extra_terms: &[String],
) -> (r: String)
    ensures
        r@ == search_text(
            description@,
            views(tags@),
            views(function_names@),
            views(function_signatures@),
            views(dependencies@),
            views(extra_terms@),
        ),
{
    let mut parts: Vec<String> = Vec::new();
    parts.push(String::from_str(description));
    parts.push(join_strings(tags, " "));
    parts.push(join_strings(function_names, " "));
    parts.push(join_strings(function_signatures, " "));
    parts.push(join_strings(dependencies, " "));
    parts.push(join_strings(extra_terms, " "));
    let joined = join_strings(parts.as_slice(), " ");
    proof {
        reveal_strlit(" ");
    }
    assert(" "@ =~= seq![' ']);
    let ghost sp = seq![' '];
    assert(views(parts@) =~= seq![
        description@,
        join(views(tags@), sp),
        join(views(function_names@), sp),
        join(views(function_signatures@), sp),
        join(views(dependencies@), sp),
        join(views(extra_terms@), sp),
    ]);
    trimmed(joined.as_str())
}

/// The names of functions, in order.
pub open spec fn names_of(fs: Seq<Function>) -> Seq<Seq<char>>
    decreases fs.len(),
{
    if fs.len() == 0 {
        Seq::empty()
    } else {
        names_of(fs.drop_last()).push(fs.last().name@)
    }
}

/// The signatures of the functions that have one, in order.
pub open spec fn signatures_of(fs: Seq<Function>) -> Seq<Seq<char>>
    decreases fs.len(),
{
    if fs.len() == 0 {
        Seq::empty()
    } else {
        match fs.last().signature {
            Some(s) => signatures_of(fs.drop_last()).push(s@),
            None => signatures_of(fs.drop_last()),
        }
    }
}

/// The names of `fs`, in order.
pub fn function_names(fs: &[Function]) -> (r: Vec<String>)
    ensures
        views(r@) == names_of(fs@),
{
    let mut r: Vec<String> = Vec::new();
    let mut i: usize = 0;
    while i < fs.len()
        invariant
            i <= fs.len(),
            views(r@) == names_of(fs@.take(i as int)),
        decreases fs.len() - i,
    {
        assert(fs@.take(i + 1).drop_last() =~= fs@.take(i as int));
        r.push(fs[i].name.clone());
        i = i + 1;
        assert(views(r@) =~= names_of(fs@.take(i as int)));
    }
    assert(fs@.take(fs.len() as int) =~= fs@);
    r
}

/// The signatures of `fs` that are present, in order.
pub fn function_signatures(fs: &[Function]) -> (r: Vec<String>)
    ensures
        views(r@) == signatures_of(fs@),
{
    let mut r: Vec<String> = Vec::new();
    let mut i: usize = 0;
    while i < fs.len()
        invariant
            i <= fs.len(),
            views(r@) == signatures_of(fs@.take(i as int)),
        decreases fs.len() - i,
    {
        assert(fs@.take(i + 1).drop_last() =~= fs@.take(i as int));
        match &fs[i].signature {
            Some(s) => r.push(s.clone()),
            None => {},
        }
        i = i + 1;
        assert(views(r@) =~= signatures_of(fs@.take(i as int)));
    }
    assert(fs@.take(fs.len() as int) =~= fs@);
    r
}

/// The search text of a stored script rebuilt from its rows: its
/// description and tags, the names and signatures of its functions, its
/// dependencies and its extra search terms.
pub fn rebuild_search_text(
    description: &str,
    tags: &[String],
    functions: &[Function],
    dependencies: &[String],
    extra_terms: &[String],
) -> (r: String)
    ensures
        r@ == search_text(
            description@,
            views(tags@),
            names_of(functions@),
            signatures_of(functions@),
            views(dependencies@),
            views(extra_terms@),
        ),
{
    let names = function_names(functions);
    let signatures = function_signatures(functions);
    build_search_text(
        description,
        tags,
        names.as_slice(),
        signatures.as_slice(),
        dependencies,
        extra_terms,
    )
}

/// A description as stored at registration: none when it is blank,
/// otherwise the text as given.
pub open spec fn registered_description(desc: Seq<char>) -> Option<Seq<char>> {
    if trim(desc).len() == 0 {
        None
    } else {
        Some(desc)
    }
}

/// Everything a registration writes, computed from the script text.
pub struct RegistrationPlan {
    pub hash: String,
    pub script_id: String,
    pub path: String,
    pub description: Option<String>,
    pub functions: Vec<Function>,
    pub dependencies: Vec<String>,
    pub search_text: String,
}

/// Plans the registration of `content` at Unix time `now`: its content
/// hash, identifier, storage path under the absolute cache directory,
/// description, parsed functions and dependencies, and the search text
/// built from the description, the given tags, the functions and the
/// dependencies.
pub fn plan_registration(
    content: &str,
    desc: String,
    tags: &[String],
    cache_dir: &str,
    now: i64,
) -> (p: RegistrationPlan)
    requires
        is_absolute(cache_dir@),
        in_time_range(now as int),
    ensures
        p.hash@ == content_hash(content@),
        p.script_id@ == identifier(p.hash@, now as int),
        p.path@ == storage_path(cache_dir@, p.hash@, now as int),
        is_absolute(p.path@),
        opt_view(p.description) == registered_description(desc@),
        functions_of(p.functions@, content@),
        dependencies_of(views(p.dependencies@), content@),
        p.search_text@ == search_text(
            match registered_description(desc@) {
                Some(d) => d,
                None => Seq::empty(),
            },
            views(tags@),
            names_of(p.functions@),
            signatures_of(p.functions@),
            views(p.dependencies@),
            Seq::empty(),
        ),
{
    let hash = sha256_string(content);
    let destination = script_storage_path(cache_dir, hash.as_str(), now);
    let functions = match PythonParser::parse_functions(content) {
        Ok(fs) => fs,
        Err(_) => Vec::new(),
    };
    let dependencies = match PythonParser::parse_dependencies(content) {
        Ok(ds) => ds,
        Err(_) => Vec::new(),
    };
    let script_id = script_identifier(hash.as_str(), now);
    let blank = trimmed(desc.as_str()).as_str().unicode_len() == 0;
    let description = if blank {
        None
    } else {
        Some(desc)
    };
    let names = function_names(functions.as_slice());
    let signatures = function_signatures(functions.as_slice());
    let no_terms: Vec<String> = Vec::new();
    let text = match &description {
        Some(d) => build_search_text(
            d.as_str(),
            tags,
            names.as_slice(),
            signatures.as_slice(),
            dependencies.as_slice(),
            no_terms.as_slice(),
        ),
        None => build_search_text(
            "",
            tags,
            names.as_slice(),
            signatures.as_slice(),
            dependencies.as_slice(),
            no_terms.as_slice(),
        ),
    };
    proof {
        reveal_strlit("");
    }
    assert(""@ =~= Seq::<char>::empty());
    assert(views(no_terms@) =~= Seq::<Seq<char>>::empty());
    assert(views(names@) == names_of(functions@));
    assert(views(signatures@) == signatures_of(functions@));
    assert(opt_view(description) == registered_description(desc@));
    RegistrationPlan {
        hash,
        script_id,
        path: destination,
        description,
        functions,
        dependencies,
        search_text: text,
    }
}

/// The description after an update: a given one is trimmed and cleared
/// when blank; without one the current description stays.
pub open spec fn updated_description(
    desc: Option<Seq<char>>,
    current: Option<Seq<char>>,
) -> Option<Seq<char>> {
    match desc {
        Some(v) => if trim(v).len() == 0 {
            None
        } else {
            Some(trim(v))
        },
        None => current,
    }
}

/// Decides the description a metadata update stores.
pub fn update_description(desc: Option<String>, current: Option<String>) -> (r: Option<String>)
    ensures
        opt_view(r) == updated_description(opt_view(desc), opt_view(current)),
{
    match desc {
        Some(value) => {
            let t = trimmed(value.as_str());
            if t.as_str().unicode_len() == 0 {
                None
            } else {
                Some(t)
            }
        },
        None => current,
    }
}

/// A registration stores a description that is not blank exactly as given
/// (spaces kept) and stores none for a blank one.
pub proof fn lemma_registered_description(desc: Seq<char>)
    ensures
        registered_description(desc) is None <==> all_white_space(desc),
        registered_description(desc) matches Some(d) ==> d == desc,
{
    lemma_blank_iff_white_space(desc);
}

/// An update with a description stores it trimmed, or clears it when it is
/// blank; an update without one keeps the current description.
pub proof fn lemma_updated_description(desc: Option<Seq<char>>, current: Option<Seq<char>>)
    ensures
        desc is None ==> updated_description(desc, current) == current,
        desc matches Some(v) ==> (updated_description(desc, current) is None <==> all_white_space(v)),
        desc matches Some(v) ==> (!all_white_space(v) ==> updated_description(desc, current)
            == Some(trim(v)) && trim(v).len() > 0 && trim(trim(v)) == trim(v)),
        desc is Some ==> updated_description(desc, Some(seq!['x'])) == updated_description(
            desc,
            None,
        ),
{
    if let Some(v) = desc {
        lemma_blank_iff_white_space(v);
        lemma_trim_idempotent(v);
    }
}

/// Where the text of a script to register comes from.
#[derive(Clone, Debug)]
pub enum ScriptSource {
    /// A file at this path.
    File(String),
    /// Standard input.
    Stdin,
    /// This text, given inline.
    Text(String),
}

/// Picks the one script source given, or says what is wrong: no source at
/// all, or more than one.
pub fn select_script_source(
    script_file: Option<String>,
    stdin: bool,
    script_text: Option<String>,
) -> (r: Result<ScriptSource, String>)
    ensures
        match (script_file, stdin, script_text) {
            (Some(path), false, None) => r matches Ok(ScriptSource::File(p)) && p@ == path@,
            (None, true, None) => r matches Ok(ScriptSource::Stdin),
            (None, false, Some(text)) => r matches Ok(ScriptSource::Text(t)) && t@ == text@,
            (None, false, None) => r matches Err(e) && e@
                == "one of --script-file, --stdin, or --script-text is required"@,
            _ => r matches Err(e) && e@ == "script source options are mutually exclusive"@,
        },
{
    match (script_file, stdin, script_text) {
        (Some(path), false, None) => Ok(ScriptSource::File(path)),
        (None, true, None) => Ok(ScriptSource::Stdin),
        (None, false, Some(content)) => Ok(ScriptSource::Text(content)),
        (None, false, None) => Err(
            String::from_str("one of --script-file, --stdin, or --script-text is required"),
        ),
        _ => Err(String::from_str("script source options are mutually exclusive")),
    }
}

/// How many scripts a cache of `total` scripts must evict to respect a
/// limit of `max_scripts` (a limit of 0 means no limit).
pub open spec fn eviction_count(total: nat, max_scripts: nat) -> nat {
    if max_scripts == 0 || total <= max_scripts {
        0
    } else {
        (total - max_scripts) as nat
    }
}

/// Decides `eviction_count`.
pub fn scripts_to_evict(total: usize, max_scripts: usize) -> (n: usize)
    ensures
        n == eviction_count(total as nat, max_scripts as nat),
{
    if max_scripts == 0 || total <= max_scripts {
        0
    } else {
        total - max_scripts
    }
}

/// The eviction count brings a cache over its limit back to the limit, and
/// evicts nothing from a cache within its limit or without a limit.
pub proof fn lemma_eviction_respects_limit(total: nat, max_scripts: nat)
    ensures
        eviction_count(total, max_scripts) <= total,
        max_scripts > 0 ==> total - eviction_count(total, max_scripts) <= max_scripts,
        max_scripts > 0 && total > max_scripts ==> total - eviction_count(total, max_scripts)
            == max_scripts,
        (max_scripts == 0 || total <= max_scripts) ==> eviction_count(total, max_scripts) == 0,
{
}

} // verus!
