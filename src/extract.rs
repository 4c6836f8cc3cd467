use vstd::prelude::*;
use vstd::string::StringExecFns;
use crate::classify::{chars_of, determine_module_type, lower_of, layer_of_path, matches_at};
use crate::model::ModuleInfo;

verus! {

/// Group 1 of the first match of `pattern` in `text`, as the regex crate
/// finds it; `None` when the pattern does not compile, nothing matches or the
/// group takes no part.
pub uninterp spec fn first_capture_of(pattern: Seq<char>, text: Seq<char>) -> Option<Seq<char>>;

/// Group 1 of each successive non-overlapping match of `pattern` in `text`,
/// as the regex crate finds them; empty where the group takes no part.
pub uninterp spec fn all_captures_of(pattern: Seq<char>, text: Seq<char>) -> Seq<Seq<char>>;

/// What `str::trim` leaves of a string.
pub uninterp spec fn trim_of(s: Seq<char>) -> Seq<char>;

/// What `Path::file_stem` gives for a path, lossily decoded; empty when
/// there is none.
pub uninterp spec fn stem_of(path: Seq<char>) -> Seq<char>;

/// Relies on `regex::Regex::new` and `Regex::captures`: group 1 of the first
/// match, when the pattern compiles.
#[verifier::external_body]
fn first_capture(pattern: &str, text: &str) -> (r: Option<String>)
    ensures
        match r {
            Some(s) => first_capture_of(pattern@, text@) == Some(s@),
            None => first_capture_of(pattern@, text@) is None,
        },
{
    match regex::Regex::new(pattern) {
        Ok(re) => match re.captures(text) {
            Some(caps) => caps.get(1).map(|m| m.as_str().to_string()),
            None => None,
        },
        Err(_) => None,
    }
}

/// Relies on `regex::Regex::new` and `Regex::captures_iter`: group 1 of every
/// match, in order, when the pattern compiles.
#[verifier::external_body]
fn all_captures(pattern: &str, text: &str) -> (r: Vec<String>)
    ensures
        r@.map_values(|s: String| s@) == all_captures_of(pattern@, text@),
{
    match regex::Regex::new(pattern) {
        Ok(re) => re
            .captures_iter(text)
            .map(|c| c.get(1).map_or(String::new(), |m| m.as_str().to_string()))
            .collect(),
        Err(_) => Vec::new(),
    }
}

/// Relies on `str::trim`: leading and trailing white space removed.
#[verifier::external_body]
fn trimmed(chars: &Vec<char>) -> (r: String)
    ensures
        r@ == trim_of(chars@),
{
    chars.iter().collect::<String>().trim().to_string()
}

/// Relies on `Path::file_stem`: the file name without its extension.
#[verifier::external_body]
fn file_stem(path: &str) -> (r: String)
    ensures
        r@ == stem_of(path@),
{
    std::path::Path::new(path).file_stem().unwrap_or_default().to_string_lossy().to_string()
}

/// `s` begins with `p`.
pub open spec fn starts_with(s: Seq<char>, p: Seq<char>) -> bool {
    p.len() <= s.len() && s.subrange(0, p.len() as int) == p
}

fn begins(s: &Vec<char>, pattern: &str) -> (r: bool)
    ensures
        r == starts_with(s@, pattern@),
{
    let p = chars_of(pattern);
    if p.len() > s.len() {
        false
    } else {
        matches_at(s, &p, 0)
    }
}

/// `s` ends with `p`.
pub open spec fn ends_with(s: Seq<char>, p: Seq<char>) -> bool {
    p.len() <= s.len() && s.subrange(s.len() - p.len(), s.len() as int) == p
}

/// A file holds a module definition when its name ends in `.module.ts`.
pub fn is_module_file_name(file_name: &str) -> (r: bool)
    ensures
        r == ends_with(file_name@, ".module.ts"@),
{
    let s = chars_of(file_name);
    let p = chars_of(".module.ts");
    if p.len() > s.len() {
        false
    } else {
        matches_at(&s, &p, s.len() - p.len())
    }
}

/// The pattern of an exported module class.
pub open spec fn class_pattern() -> Seq<char> {
    "export\\s+class\\s+(\\w+Module)"@
}

/// The pattern of an `import { .. } from '..';` statement.
pub open spec fn import_pattern() -> Seq<char> {
    "import\\s*\\{[^}]*\\}\\s*from\\s*[\"']([^\"']*)[\"']\\s*;"@
}

/// The pattern of the array literal of an `NgModule` field.
pub open spec fn array_pattern(field: Seq<char>) -> Seq<char> {
    field + ":\\s*\\[(.*?)\\]"@
}

/// The module's name: its exported `...Module` class, else the file stem.
pub open spec fn module_name_of(path: Seq<char>, content: Seq<char>) -> Seq<char> {
    match first_capture_of(class_pattern(), content) {
        Some(n) => n,
        None => stem_of(path),
    }
}

/// Names the module: its exported `...Module` class, else the file stem.
pub fn extract_module_name(path: &str, content: &str) -> (r: String)
    ensures
        r@ == module_name_of(path@, content@),
{
    match first_capture("export\\s+class\\s+(\\w+Module)", content) {
        Some(n) => n,
        None => file_stem(path),
    }
}

/// An import source that names a package rather than a relative file or
/// the framework itself.
pub open spec fn is_package_import(s: Seq<char>) -> bool {
    !starts_with(s, "."@) && !starts_with(s, "@angular/"@)
}

/// The package imports among the first `k` sources, in order.
pub open spec fn package_imports(sources: Seq<Seq<char>>, k: int) -> Seq<Seq<char>>
    decreases k,
{
    if k <= 0 {
        seq![]
    } else {
        let r = package_imports(sources, k - 1);
        if is_package_import(sources[k - 1]) {
            r.push(sources[k - 1])
        } else {
            r
        }
    }
}

/// Keeps the package imports among the import sources, in order.
pub fn filter_package_imports(sources: &Vec<String>) -> (r: Vec<String>)
    ensures
        r@.map_values(|s: String| s@) == package_imports(
            sources@.map_values(|s: String| s@),
            sources@.len() as int,
        ),
{
    let ghost v = sources@.map_values(|s: String| s@);
    let mut out: Vec<String> = Vec::new();
    let mut i: usize = 0;
    while i < sources.len()
        invariant
            i <= sources@.len(),
            v == sources@.map_values(|s: String| s@),
            out@.map_values(|s: String| s@) == package_imports(v, i as int),
        decreases sources@.len() - i,
    {
        let chars = chars_of(sources[i].as_str());
        if !begins(&chars, ".") && !begins(&chars, "@angular/") {
            let ghost before = out@.map_values(|s: String| s@);
            out.push(sources[i].clone());
            assert(out@.map_values(|s: String| s@) =~= before.push(v[i as int]));
        }
        i = i + 1;
    }
    out
}

/// The package dependencies that the file's import statements name.
pub fn extract_dependencies(content: &str) -> (r: Vec<String>)
    ensures
        r@.map_values(|s: String| s@) == package_imports(
            all_captures_of(import_pattern(), content@),
            all_captures_of(import_pattern(), content@).len() as int,
        ),
{
    let sources = all_captures("import\\s*\\{[^}]*\\}\\s*from\\s*[\"']([^\"']*)[\"']\\s*;", content);
    filter_package_imports(&sources)
}

/// The pieces of `s` between the commas (one piece when there is none).
pub open spec fn split_commas(s: Seq<char>) -> Seq<Seq<char>>
    decreases s.len(),
{
    if s.len() == 0 {
        seq![seq![]]
    } else {
        let r = split_commas(s.drop_last());
        if s.last() == ',' {
            r.push(seq![])
        } else {
            r.update(r.len() - 1, r.last().push(s.last()))
        }
    }
}

/// The trimmed, non-empty ones among the first `k` pieces.
pub open spec fn array_items(pieces: Seq<Seq<char>>, k: int) -> Seq<Seq<char>>
    decreases k,
{
    if k <= 0 {
        seq![]
    } else {
        let r = array_items(pieces, k - 1);
        let t = trim_of(pieces[k - 1]);
        if t.len() > 0 {
            r.push(t)
        } else {
            r
        }
    }
}

/// The items of an array literal's body.
pub open spec fn items_of(body: Seq<char>) -> Seq<Seq<char>> {
    array_items(split_commas(body), split_commas(body).len() as int)
}

proof fn lemma_split_nonempty(s: Seq<char>)
    ensures
        split_commas(s).len() > 0,
    decreases s.len(),
{
    if s.len() > 0 {
        lemma_split_nonempty(s.drop_last());
    }
}

/// Splits an array literal's body at the commas and keeps each trimmed,
/// non-empty item.
pub fn split_array_items(body: &str) -> (r: Vec<String>)
    ensures
        r@.map_values(|s: String| s@) == items_of(body@),
{
    let chars = chars_of(body);
    let mut pieces: Vec<Vec<char>> = Vec::new();
    let mut current: Vec<char> = Vec::new();
    let mut i: usize = 0;
    proof {
        assert(chars@.take(0) =~= Seq::<char>::empty());
    }
    while i < chars.len()
        invariant
            chars@ == body@,
            i <= chars@.len(),
            pieces@.map_values(|p: Vec<char>| p@).push(current@) == split_commas(chars@.take(i as int)),
        decreases chars@.len() - i,
    {
        let c = chars[i];
        let ghost before = pieces@.map_values(|p: Vec<char>| p@);
        assert(chars@.take(i + 1).drop_last() =~= chars@.take(i as int));
        if c == ',' {
            let done = current;
            current = Vec::new();
            pieces.push(done);
            assert(pieces@.map_values(|p: Vec<char>| p@) =~= before.push(done@));
            assert(pieces@.map_values(|p: Vec<char>| p@).push(current@) =~= before.push(done@).push(
                seq![],
            ));
        } else {
            let ghost old_cur = current@;
            current.push(c);
            assert(before.push(current@) =~= before.push(old_cur).update(
                before.len() as int,
                old_cur.push(c),
            ));
        }
        i = i + 1;
    }
    assert(chars@.take(i as int) =~= chars@);
    pieces.push(current);
    let ghost all = pieces@.map_values(|p: Vec<char>| p@);
    assert(all == split_commas(body@));
    let mut out: Vec<String> = Vec::new();
    let mut k: usize = 0;
    while k < pieces.len()
        invariant
            k <= pieces@.len(),
            all == pieces@.map_values(|p: Vec<char>| p@),
            all == split_commas(body@),
            out@.map_values(|s: String| s@) == array_items(all, k as int),
        decreases pieces@.len() - k,
    {
        let t = trimmed(&pieces[k]);
        if chars_of(t.as_str()).len() > 0 {
            let ghost before = out@.map_values(|s: String| s@);
            out.push(t);
            assert(out@.map_values(|s: String| s@) =~= before.push(t@));
        }
        k = k + 1;
    }
    out
}

/// The items of the array literal of `field` in the file's `NgModule`
/// declaration; none when there is no such field.
pub open spec fn ngmodule_array_of(content: Seq<char>, field: Seq<char>) -> Seq<Seq<char>> {
    match first_capture_of(array_pattern(field), content) {
        Some(body) => items_of(body),
        None => seq![],
    }
}

/// Reads the items of the array literal of `field`.
pub fn extract_ngmodule_array(content: &str, field: &str) -> (r: Vec<String>)
    ensures
        r@.map_values(|s: String| s@) == ngmodule_array_of(content@, field@),
{
    let mut pattern = String::from_str(field);
    pattern.append(":\\s*\\[(.*?)\\]");
    match first_capture(pattern.as_str(), content) {
        Some(body) => split_array_items(body.as_str()),
        None => Vec::new(),
    }
}

/// Builds the record of one module file from its path and text.
pub fn parse_module(path: &str, content: &str) -> (r: ModuleInfo)
    ensures
        r.path@ == path@,
        r.name@ == module_name_of(path@, content@),
        r.module_type == layer_of_path(lower_of(path@)),
        r.imports@.map_values(|s: String| s@) == ngmodule_array_of(content@, "imports"@),
        r.exports@.map_values(|s: String| s@) == ngmodule_array_of(content@, "exports"@),
        r.providers@.map_values(|s: String| s@) == ngmodule_array_of(content@, "providers"@),
        r.declarations@.map_values(|s: String| s@) == ngmodule_array_of(
            content@,
            "declarations"@,
        ),
        r.dependency_names() == package_imports(
            all_captures_of(import_pattern(), content@),
            all_captures_of(import_pattern(), content@).len() as int,
        ),
{
    ModuleInfo {
        path: String::from_str(path),
        name: extract_module_name(path, content),
        module_type: determine_module_type(path),
        imports: extract_ngmodule_array(content, "imports"),
        exports: extract_ngmodule_array(content, "exports"),
        providers: extract_ngmodule_array(content, "providers"),
        declarations: extract_ngmodule_array(content, "declarations"),
        dependencies: extract_dependencies(content),
    }
}

} // verus!
