//! Package version lookup: a query `manager:package` names a package
//! manager and a package; the version comes from the manager's manifest
//! (`package.json` for npm, `uv.lock` for uv).
use vstd::prelude::*;
use crate::text::{chars_of, string_from_chars};

verus! {

broadcast use vstd::seq_lib::group_seq_properties;

/// The package managers whose manifests can be read.
#[derive(Clone, Copy, PartialEq, Eq, Structural, Debug)]
pub enum PkgManager {
    /// npm: the manifest is `package.json`.
    Npm,
    /// uv: the manifest is `uv.lock`.
    Uv,
}

/// A parsed query: which manager, and which package.
pub struct PkgQuery {
    pub manager: PkgManager,
    pub package: String,
}

/// Why a package version could not be resolved.
pub enum PkgError {
    /// The query has no `:` between manager and package.
    InvalidQuery(String),
    /// Nothing follows the `:` of the query.
    EmptyPackage(String),
    /// The text before the `:` names no known manager.
    UnknownManager(String),
    /// The manifest is not valid JSON (npm) or TOML (uv).
    InvalidManifest(PkgManager),
    /// The manifest lists no version of the package.
    NotFound(String),
}

pub enum PkgErrorView {
    InvalidQuery(Seq<char>),
    EmptyPackage(Seq<char>),
    UnknownManager(Seq<char>),
    InvalidManifest(PkgManager),
    NotFound(Seq<char>),
}

impl View for PkgError {
    type V = PkgErrorView;

    open spec fn view(&self) -> PkgErrorView {
        match self {
            PkgError::InvalidQuery(q) => PkgErrorView::InvalidQuery(q@),
            PkgError::EmptyPackage(q) => PkgErrorView::EmptyPackage(q@),
            PkgError::UnknownManager(m) => PkgErrorView::UnknownManager(m@),
            PkgError::InvalidManifest(m) => PkgErrorView::InvalidManifest(*m),
            PkgError::NotFound(p) => PkgErrorView::NotFound(p@),
        }
    }
}

/// The manager that a name stands for: `npm` or `js` for npm; `uv`, `py`
/// or `python` for uv.
pub open spec fn manager_named(m: Seq<char>) -> Option<PkgManager> {
    if m == seq!['n', 'p', 'm'] || m == seq!['j', 's'] {
        Some(PkgManager::Npm)
    } else if m == seq!['u', 'v'] || m == seq!['p', 'y'] || m == seq!['p', 'y', 't', 'h', 'o', 'n'] {
        Some(PkgManager::Uv)
    } else {
        None
    }
}

pub open spec fn has_colon(q: Seq<char>) -> bool {
    exists|i: int| 0 <= i < q.len() && q[i] == ':'
}

/// The position of the first `:` of `q`.
pub open spec fn first_colon(q: Seq<char>) -> int {
    choose|i: int| 0 <= i < q.len() && q[i] == ':' && forall|j: int| 0 <= j < i ==> q[j] != ':'
}

/// What a query means: split at its first `:` into manager and package.
pub open spec fn parsed_query(q: Seq<char>) -> Result<(PkgManager, Seq<char>), PkgErrorView> {
    if !has_colon(q) {
        Err(PkgErrorView::InvalidQuery(q))
    } else {
        let i = first_colon(q);
        let manager = q.take(i);
        let package = q.skip(i + 1);
        if package.len() == 0 {
            Err(PkgErrorView::EmptyPackage(q))
        } else {
            match manager_named(manager) {
                Some(m) => Ok((m, package)),
                None => Err(PkgErrorView::UnknownManager(manager)),
            }
        }
    }
}

fn same_word(a: &[char], b: &[char]) -> (r: bool)
    ensures
        r == (a@ == b@),
{
    crate::text::same_chars(a, b)
}

/// Parses a query of the form `manager:package`.
pub fn parse_pkg_query(query: &str) -> (r: Result<PkgQuery, PkgError>)
    ensures
        match r {
            Ok(q) => parsed_query(query@) == Ok::<(PkgManager, Seq<char>), PkgErrorView>((q.manager, q.package@)),
            Err(e) => parsed_query(query@) == Err::<(PkgManager, Seq<char>), PkgErrorView>(e@),
        },
{
    let qc = chars_of(query);
    let mut i: usize = 0;
    while i < qc.len() && qc[i] != ':'
        invariant
            i <= qc.len(),
            qc@ == query@,
            forall|j: int| 0 <= j < i ==> qc@[j] != ':',
        decreases qc.len() - i,
    {
        i = i + 1;
    }
    if i == qc.len() {
        return Err(PkgError::InvalidQuery(query.to_owned()));
    }
    proof {
        let k = first_colon(query@);
        assert(0 <= k < query@.len() && query@[k] == ':' && forall|j: int| 0 <= j < k ==> query@[j] != ':');
        if k < i {
            assert(qc@[k] != ':');
        }
        if k > i {
            assert(query@[i as int] != ':');
        }
    }
    let mut manager = qc;
    let mut rest = manager.split_off(i);
    let package = rest.split_off(1);
    assert(manager@ == query@.take(i as int));
    assert(package@ =~= query@.skip(i + 1));
    if package.len() == 0 {
        return Err(PkgError::EmptyPackage(query.to_owned()));
    }
    let npm = vec!['n', 'p', 'm'];
    let js = vec!['j', 's'];
    let uv = vec!['u', 'v'];
    let py = vec!['p', 'y'];
    let python = vec!['p', 'y', 't', 'h', 'o', 'n'];
    let found = if same_word(manager.as_slice(), npm.as_slice()) || same_word(manager.as_slice(), js.as_slice()) {
        PkgManager::Npm
    } else if same_word(manager.as_slice(), uv.as_slice()) || same_word(manager.as_slice(), py.as_slice())
        || same_word(manager.as_slice(), python.as_slice()) {
        PkgManager::Uv
    } else {
        return Err(PkgError::UnknownManager(string_from_chars(manager.as_slice())));
    };
    Ok(PkgQuery { manager: found, package: string_from_chars(package.as_slice()) })
}


/// The views of the manifest models: `None` marks a value of another kind.
pub type RecordView = Option<Seq<(Seq<char>, Option<Seq<char>>)>>;

pub type JsonDocView = Option<Seq<(Seq<char>, RecordView)>>;

pub type TomlMemberView = Option<Seq<RecordView>>;

pub type TomlDocView = Option<Seq<(Seq<char>, TomlMemberView)>>;

/// A value of a manifest where only its text matters: a string, or anything
/// else.
pub enum Leaf {
    Text(String),
    Other,
}

impl View for Leaf {
    type V = Option<Seq<char>>;

    open spec fn view(&self) -> Option<Seq<char>> {
        match self {
            Leaf::Text(t) => Some(t@),
            Leaf::Other => None,
        }
    }
}

pub open spec fn pairs_view<V: View>(s: Seq<(String, V)>) -> Seq<(Seq<char>, V::V)> {
    s.map_values(|e: (String, V)| (e.0@, e.1@))
}

/// A table of a manifest (a JSON object, a TOML table) whose values are
/// leaves, in the order the parser yields them; or anything else.
pub enum Record {
    Table(Vec<(String, Leaf)>),
    Other,
}

impl View for Record {
    type V = RecordView;

    open spec fn view(&self) -> RecordView {
        match self {
            Record::Table(fields) => Some(pairs_view(fields@)),
            Record::Other => None,
        }
    }
}

/// A JSON document as the npm lookup reads it: the members of a top-level
/// object, each an object of leaves or something else; or anything else.
pub enum JsonDocument {
    Object(Vec<(String, Record)>),
    Other,
}

impl View for JsonDocument {
    type V = JsonDocView;

    open spec fn view(&self) -> Self::V {
        match self {
            JsonDocument::Object(members) => Some(pairs_view(members@)),
            JsonDocument::Other => None,
        }
    }
}

/// A member of a TOML document as the uv lookup reads it: an array of
/// tables of leaves (or of other values), or anything else.
pub enum TomlMember {
    Array(Vec<Record>),
    Other,
}

impl View for TomlMember {
    type V = TomlMemberView;

    open spec fn view(&self) -> Self::V {
        match self {
            TomlMember::Array(items) => Some(items@.map_values(|r: Record| r@)),
            TomlMember::Other => None,
        }
    }
}

/// A TOML document as the uv lookup reads it: the members of its top-level
/// table; or anything else.
pub enum TomlDocument {
    Table(Vec<(String, TomlMember)>),
    Other,
}

impl View for TomlDocument {
    type V = TomlDocView;

    open spec fn view(&self) -> Self::V {
        match self {
            TomlDocument::Table(members) => Some(pairs_view(members@)),
            TomlDocument::Other => None,
        }
    }
}

/// The value of the first entry whose key is `key`.
pub open spec fn find_key<V>(entries: Seq<(Seq<char>, V)>, key: Seq<char>) -> Option<V>
    decreases entries.len(),
{
    if entries.len() == 0 {
        None
    } else if entries[0].0 == key {
        Some(entries[0].1)
    } else {
        find_key(entries.drop_first(), key)
    }
}

pub open spec fn opt_view<V: View>(r: Option<&V>) -> Option<V::V> {
    match r {
        Some(v) => Some(v@),
        None => None,
    }
}

fn find_in<'a, V: View>(entries: &'a [(String, V)], key: &String) -> (r: Option<&'a V>)
    ensures
        opt_view(r) == find_key(pairs_view(entries@), key@),
{
    let ghost es = pairs_view(entries@);
    let mut i: usize = 0;
    assert(es.skip(0) =~= es);
    while i < entries.len()
        invariant
            i <= entries.len(),
            es == pairs_view(entries@),
            find_key(es, key@) == find_key(es.skip(i as int), key@),
        decreases entries.len() - i,
    {
        assert(es.skip(i as int)[0] == es[i as int]);
        if entries[i].0 == *key {
            return Some(&entries[i].1);
        }
        assert(es.skip(i as int).drop_first() =~= es.skip(i + 1));
        i = i + 1;
    }
    None
}

/// The text under `key` in a record, if it is a string.
pub open spec fn record_text(r: RecordView, key: Seq<char>) -> Option<Seq<char>> {
    match r {
        Some(fields) => match find_key(fields, key) {
            Some(Some(t)) => Some(t),
            _ => None,
        },
        None => None,
    }
}

pub open spec fn string_view(s: Option<String>) -> Option<Seq<char>> {
    match s {
        Some(x) => Some(x@),
        None => None,
    }
}

fn record_text_of(r: &Record, key: &String) -> (res: Option<String>)
    ensures
        string_view(res) == record_text(r@, key@),
{
    match r {
        Record::Table(fields) => match find_in(fields.as_slice(), key) {
            Some(Leaf::Text(t)) => Some(t.clone()),
            _ => None,
        },
        Record::Other => None,
    }
}

/// The version a JSON document lists for `package` in one of its sections.
pub open spec fn npm_section_version(
    doc: JsonDocView,
    section: Seq<char>,
    package: Seq<char>,
) -> Option<Seq<char>> {
    match doc {
        Some(members) => match find_key(members, section) {
            Some(rec) => record_text(rec, package),
            None => None,
        },
        None => None,
    }
}

/// The version `package.json` gives `package`: the first string found under
/// `dependencies`, `devDependencies` or `peerDependencies`, in that order.
pub open spec fn npm_version(
    doc: JsonDocView,
    package: Seq<char>,
) -> Option<Seq<char>> {
    let a = npm_section_version(doc, "dependencies"@, package);
    let b = npm_section_version(doc, "devDependencies"@, package);
    let c = npm_section_version(doc, "peerDependencies"@, package);
    if a is Some {
        a
    } else if b is Some {
        b
    } else {
        c
    }
}

fn section_version(doc: &JsonDocument, section: &String, package: &String) -> (r: Option<String>)
    ensures
        string_view(r) == npm_section_version(doc@, section@, package@),
{
    match doc {
        JsonDocument::Object(members) => match find_in(members.as_slice(), section) {
            Some(rec) => record_text_of(rec, package),
            None => None,
        },
        JsonDocument::Other => None,
    }
}

/// Looks `package` up in a parsed `package.json`.
pub fn npm_version_in(doc: &JsonDocument, package: &str) -> (r: Option<String>)
    ensures
        string_view(r) == npm_version(doc@, package@),
        npm_section_version(doc@, "dependencies"@, package@) is Some ==> string_view(r)
            == npm_section_version(doc@, "dependencies"@, package@),
        npm_section_version(doc@, "dependencies"@, package@) is None && npm_section_version(
            doc@,
            "devDependencies"@,
            package@,
        ) is Some ==> string_view(r) == npm_section_version(doc@, "devDependencies"@, package@),
        npm_section_version(doc@, "dependencies"@, package@) is None && npm_section_version(
            doc@,
            "devDependencies"@,
            package@,
        ) is None ==> string_view(r) == npm_section_version(doc@, "peerDependencies"@, package@),
{
    let package = package.to_owned();
    let deps = "dependencies".to_owned();
    let dev = "devDependencies".to_owned();
    let peer = "peerDependencies".to_owned();
    let a = section_version(doc, &deps, &package);
    if a.is_some() {
        return a;
    }
    let b = section_version(doc, &dev, &package);
    if b.is_some() {
        return b;
    }
    section_version(doc, &peer, &package)
}

/// The name of a `uv.lock` package entry, or the empty text.
pub open spec fn uv_entry_name(r: RecordView) -> Seq<char> {
    match record_text(r, "name"@) {
        Some(n) => n,
        None => Seq::empty(),
    }
}

/// The version of the first entry named `package` that has a version.
pub open spec fn uv_version_from(entries: Seq<RecordView>, package: Seq<char>) -> Option<Seq<char>>
    decreases entries.len(),
{
    if entries.len() == 0 {
        None
    } else if uv_entry_name(entries[0]) == package && record_text(entries[0], "version"@) is Some {
        record_text(entries[0], "version"@)
    } else {
        uv_version_from(entries.drop_first(), package)
    }
}

/// The version `uv.lock` gives `package`, from its `package` array.
pub open spec fn uv_version(
    doc: TomlDocView,
    package: Seq<char>,
) -> Option<Seq<char>> {
    match doc {
        Some(members) => match find_key(members, "package"@) {
            Some(Some(entries)) => uv_version_from(entries, package),
            _ => None,
        },
        None => None,
    }
}

/// Looks `package` up in a parsed `uv.lock`.
pub fn uv_version_in(doc: &TomlDocument, package: &str) -> (r: Option<String>)
    ensures
        string_view(r) == uv_version(doc@, package@),
{
    let wanted = package.to_owned();
    let key = "package".to_owned();
    let name_key = "name".to_owned();
    let version_key = "version".to_owned();
    let members = match doc {
        TomlDocument::Table(members) => members,
        TomlDocument::Other => {
            return None;
        },
    };
    let entries = match find_in(members.as_slice(), &key) {
        Some(TomlMember::Array(items)) => items,
        _ => {
            return None;
        },
    };
    let ghost es = entries@.map_values(|r: Record| r@);
    let empty = String::new();
    let mut i: usize = 0;
    assert(es.skip(0) =~= es);
    while i < entries.len()
        invariant
            i <= entries.len(),
            es == entries@.map_values(|r: Record| r@),
            name_key@ == "name"@,
            version_key@ == "version"@,
            empty@ == Seq::<char>::empty(),
            wanted@ == package@,
            uv_version(doc@, package@) == uv_version_from(es.skip(i as int), package@),
        decreases entries.len() - i,
    {
        assert(es.skip(i as int)[0] == entries@[i as int]@);
        let name = match record_text_of(&entries[i], &name_key) {
            Some(n) => n,
            None => empty.clone(),
        };
        assert(name@ == uv_entry_name(es[i as int]));
        if name == wanted {
            let version = record_text_of(&entries[i], &version_key);
            assert(string_view(version) == record_text(es[i as int], "version"@));
            if version.is_some() {
                assert(es.skip(i as int).len() > 0);
                assert(uv_version_from(es.skip(i as int), package@) == record_text(es[i as int], "version"@));
                return version;
            }
        }
        assert(es.skip(i as int).drop_first() =~= es.skip(i + 1));
        i = i + 1;
    }
    None
}


#[verifier::external_type_specification]
#[verifier::external_body]
pub struct ExJsonError(serde_json::Error);

#[verifier::external_type_specification]
#[verifier::external_body]
pub struct ExTomlError(toml::de::Error);

/// What `serde_json` reads from `text` as a `serde_json::Value`, kept as far
/// as the npm lookup reads it; `None` where `text` is not JSON.
pub uninterp spec fn json_document(text: Seq<char>) -> Option<JsonDocView>;

/// What `toml` reads from `text` as a `toml::Value`, kept as far as the uv
/// lookup reads it; `None` where `text` is not TOML.
pub uninterp spec fn toml_document(text: Seq<char>) -> Option<TomlDocView>;

/// Calls `serde_json::from_str::<serde_json::Value>` and keeps the top-level
/// object's members, each an object of strings (other values marked as
/// such) or something else.  Its result is named by `json_document`.
#[verifier::external_body]
fn parse_json_document(text: &str) -> (r: Result<JsonDocument, serde_json::Error>)
    ensures
        match r {
            Ok(d) => json_document(text@) == Some(d@),
            Err(_) => json_document(text@) is None,
        },
{
    serde_json::from_str::<serde_json::Value>(text).map(|v| match v {
        serde_json::Value::Object(top) => JsonDocument::Object(top.into_iter().map(|(k, v)| (k, match v {
            serde_json::Value::Object(m) => Record::Table(m.into_iter().map(|(f, x)| (f, match x {
                serde_json::Value::String(s) => Leaf::Text(s),
                _ => Leaf::Other,
            })).collect()),
            _ => Record::Other,
        })).collect()),
        _ => JsonDocument::Other,
    })
}

/// Calls `toml::from_str::<toml::Value>` and keeps the top-level table's
/// members, each an array of tables of strings (other values marked as
/// such) or something else.  Its result is named by `toml_document`.
#[verifier::external_body]
fn parse_toml_document(text: &str) -> (r: Result<TomlDocument, toml::de::Error>)
    ensures
        match r {
            Ok(d) => toml_document(text@) == Some(d@),
            Err(_) => toml_document(text@) is None,
        },
{
    toml::from_str::<toml::Value>(text).map(|v| match v {
        toml::Value::Table(top) => TomlDocument::Table(top.into_iter().map(|(k, v)| (k, match v {
            toml::Value::Array(items) => TomlMember::Array(items.into_iter().map(|e| match e {
                toml::Value::Table(t) => Record::Table(t.into_iter().map(|(f, x)| (f, match x {
                    toml::Value::String(s) => Leaf::Text(s),
                    _ => Leaf::Other,
                })).collect()),
                _ => Record::Other,
            }).collect()),
            _ => TomlMember::Other,
        })).collect()),
        _ => TomlDocument::Other,
    })
}

/// The file that holds a manager's manifest.
pub fn manifest_file(manager: PkgManager) -> (r: &'static str)
    ensures
        manager == PkgManager::Npm ==> r@ == "package.json"@,
        manager == PkgManager::Uv ==> r@ == "uv.lock"@,
{
    match manager {
        PkgManager::Npm => "package.json",
        PkgManager::Uv => "uv.lock",
    }
}

/// What `resolve_pkg_version` gives for a query and the text of the
/// manifest of the manager that the query names.
pub open spec fn resolved_version(query: Seq<char>, manifest: Seq<char>) -> Result<Seq<char>, PkgErrorView> {
    match parsed_query(query) {
        Err(e) => Err(e),
        Ok((PkgManager::Npm, package)) => match json_document(manifest) {
            None => Err(PkgErrorView::InvalidManifest(PkgManager::Npm)),
            Some(doc) => match npm_version(doc, package) {
                Some(v) => Ok(v),
                None => Err(PkgErrorView::NotFound(package)),
            },
        },
        Ok((PkgManager::Uv, package)) => match toml_document(manifest) {
            None => Err(PkgErrorView::InvalidManifest(PkgManager::Uv)),
            Some(doc) => match uv_version(doc, package) {
                Some(v) => Ok(v),
                None => Err(PkgErrorView::NotFound(package)),
            },
        },
    }
}

pub open spec fn result_view(r: Result<String, PkgError>) -> Result<Seq<char>, PkgErrorView> {
    match r {
        Ok(v) => Ok(v@),
        Err(e) => Err(e@),
    }
}

/// Resolves a query `manager:package` against the text of that manager's
/// manifest (`manifest_file` names it): the version the manifest gives the
/// package, or why there is none.
pub fn resolve_pkg_version(query: &str, manifest: &str) -> (r: Result<String, PkgError>)
    ensures
        result_view(r) == resolved_version(query@, manifest@),
{
    let q = match parse_pkg_query(query) {
        Ok(q) => q,
        Err(e) => {
            return Err(e);
        },
    };
    match q.manager {
        PkgManager::Npm => match parse_json_document(manifest) {
            Err(_) => Err(PkgError::InvalidManifest(PkgManager::Npm)),
            Ok(doc) => match npm_version_in(&doc, q.package.as_str()) {
                Some(v) => Ok(v),
                None => Err(PkgError::NotFound(q.package)),
            },
        },
        PkgManager::Uv => match parse_toml_document(manifest) {
            Err(_) => Err(PkgError::InvalidManifest(PkgManager::Uv)),
            Ok(doc) => match uv_version_in(&doc, q.package.as_str()) {
                Some(v) => Ok(v),
                None => Err(PkgError::NotFound(q.package)),
            },
        },
    }
}


/// The npm lookup searches `dependencies`, then `devDependencies`, then
/// `peerDependencies`: a version found in an earlier section wins, a later
/// section is read only when the earlier ones have none, and a version
/// found always comes from one of the three.
pub proof fn law_npm_sections_in_order(doc: JsonDocView, package: Seq<char>)
    ensures
        npm_section_version(doc, "dependencies"@, package) is Some ==> npm_version(doc, package)
            == npm_section_version(doc, "dependencies"@, package),
        npm_section_version(doc, "dependencies"@, package) is None ==> npm_version(doc, package)
            == if npm_section_version(doc, "devDependencies"@, package) is Some {
            npm_section_version(doc, "devDependencies"@, package)
        } else {
            npm_section_version(doc, "peerDependencies"@, package)
        },
        npm_version(doc, package) is Some ==> (npm_version(doc, package) == npm_section_version(
            doc,
            "dependencies"@,
            package,
        ) || npm_version(doc, package) == npm_section_version(doc, "devDependencies"@, package)
            || npm_version(doc, package) == npm_section_version(doc, "peerDependencies"@, package)),
{
}

/// The version the uv lookup gives belongs to the first entry of the
/// `package` array whose name is exactly the package and that has a
/// version; where there is no such entry the lookup gives nothing.  (An
/// entry without a name is taken to have the empty name.)
pub proof fn law_uv_version_is_of_exact_name(entries: Seq<RecordView>, package: Seq<char>)
    ensures
        match uv_version_from(entries, package) {
            Some(v) => exists|i: int|
                0 <= i < entries.len() && uv_named(#[trigger] entries[i], package) && record_text(
                    entries[i],
                    "version"@,
                ) == Some(v) && forall|j: int|
                    0 <= j < i ==> !(uv_named(#[trigger] entries[j], package) && record_text(
                        entries[j],
                        "version"@,
                    ) is Some),
            None => forall|i: int|
                0 <= i < entries.len() ==> !(uv_named(#[trigger] entries[i], package) && record_text(
                    entries[i],
                    "version"@,
                ) is Some),
        },
    decreases entries.len(),
{
    if entries.len() > 0 {
        let rest = entries.drop_first();
        law_uv_version_is_of_exact_name(rest, package);
        let e = entries[0];
        if uv_named(e, package) && record_text(e, "version"@) is Some {
            assert(uv_entry_name(e) == package);
        } else {
            assert(!(uv_entry_name(e) == package && record_text(e, "version"@) is Some));
            match uv_version_from(rest, package) {
                Some(v) => {
                    let k = choose|k: int|
                        0 <= k < rest.len() && uv_named(#[trigger] rest[k], package) && record_text(
                            rest[k],
                            "version"@,
                        ) == Some(v) && forall|j: int|
                            0 <= j < k ==> !(uv_named(#[trigger] rest[j], package) && record_text(
                                rest[j],
                                "version"@,
                            ) is Some);
                    assert(entries[k + 1] == rest[k]);
                    assert forall|j: int| 0 <= j < k + 1 implies !(uv_named(#[trigger] entries[j], package)
                        && record_text(entries[j], "version"@) is Some) by {
                        if j > 0 {
                            assert(entries[j] == rest[j - 1]);
                        }
                    }
                },
                None => {
                    assert forall|i: int| 0 <= i < entries.len() implies !(uv_named(#[trigger] entries[i], package)
                        && record_text(entries[i], "version"@) is Some) by {
                        if i > 0 {
                            assert(entries[i] == rest[i - 1]);
                        }
                    }
                },
            }
        }
    }
}

/// An entry of `uv.lock` is named `package`: its name is that text, or it
/// has no name and the package is the empty text.
pub open spec fn uv_named(e: RecordView, package: Seq<char>) -> bool {
    record_text(e, "name"@) == Some(package) || (record_text(e, "name"@) is None && package.len() == 0)
}

} // verus!
