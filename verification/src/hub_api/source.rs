//! What is mounted: a bucket, or a repository at a revision.

use vstd::prelude::*;
use vstd::string::StrSliceExecFns;

use crate::text;

verus! {

/// Kinds of repositories.
#[derive(Debug, Clone, Copy, PartialEq, Eq, Structural)]
pub enum RepoType {
    Model,
    Dataset,
    Space,
}

impl RepoType {
    /// The name of this kind.
    pub open spec fn name(self) -> Seq<char> {
        match self {
            RepoType::Model => "model"@,
            RepoType::Dataset => "dataset"@,
            RepoType::Space => "space"@,
        }
    }

    pub open spec fn api(self) -> Seq<char> {
        match self {
            RepoType::Model => "models"@,
            RepoType::Dataset => "datasets"@,
            RepoType::Space => "spaces"@,
        }
    }

    pub open spec fn resolve(self) -> Seq<char> {
        match self {
            RepoType::Model => ""@,
            RepoType::Dataset => "datasets/"@,
            RepoType::Space => "spaces/"@,
        }
    }

    /// Path segment used in `/api/{type}/{id}/…` API routes.
    pub fn api_prefix(&self) -> (s: &'static str)
        ensures
            s@ == self.api(),
    {
        match self {
            RepoType::Model => "models",
            RepoType::Dataset => "datasets",
            RepoType::Space => "spaces",
        }
    }

    /// Path segment used in `/{type}/{id}/resolve/…` user-facing routes. Models
    /// don't have a type prefix in resolve URLs (e.g.
    /// `/user/repo/resolve/main/file`), datasets and spaces do (e.g.
    /// `/datasets/user/repo/resolve/main/file`).
    pub fn resolve_prefix(&self) -> (s: &'static str)
        ensures
            s@ == self.resolve(),
    {
        match self {
            RepoType::Model => "",
            RepoType::Dataset => "datasets/",
            RepoType::Space => "spaces/",
        }
    }

    /// The name of this kind.
    pub fn to_string(&self) -> (s: String)
        ensures
            s@ == self.name(),
    {
        match self {
            RepoType::Model => "model".to_owned(),
            RepoType::Dataset => "dataset".to_owned(),
            RepoType::Space => "space".to_owned(),
        }
    }

    /// The kind with the given name.
    pub fn from_name(s: &str) -> (r: Result<RepoType, String>)
        ensures
            match r {
                Ok(t) => repo_type_of_name(s@) == Some(t),
                Err(e) => repo_type_of_name(s@) is None && e@ == "unknown repo type: "@ + s@
                    + " (expected model, dataset, or space)"@,
            },
    {
        if text::eq(s, "model") {
            Ok(RepoType::Model)
        } else if text::eq(s, "dataset") {
            Ok(RepoType::Dataset)
        } else if text::eq(s, "space") {
            Ok(RepoType::Space)
        } else {
            let mut e: String = "unknown repo type: ".to_owned();
            e.push_str(s);
            e.push_str(" (expected model, dataset, or space)");
            Err(e)
        }
    }
}

/// The kind whose name is `s`.
pub open spec fn repo_type_of_name(s: Seq<char>) -> Option<RepoType> {
    if s == "model"@ {
        Some(RepoType::Model)
    } else if s == "dataset"@ {
        Some(RepoType::Dataset)
    } else if s == "space"@ {
        Some(RepoType::Space)
    } else {
        None
    }
}

/// Every kind is found again by its name.
pub proof fn law_repo_type_round_trip(t: RepoType)
    ensures
        repo_type_of_name(t.name()) == Some(t),
{
    reveal_strlit("model");
    reveal_strlit("dataset");
    reveal_strlit("space");
    assert("model"@[0] == 'm' && "dataset"@[0] == 'd' && "space"@[0] == 's');
}

impl core::str::FromStr for RepoType {
    type Err = String;

    fn from_str(s: &str) -> (r: Result<Self, String>)
        ensures
            match r {
                Ok(t) => repo_type_of_name(s@) == Some(t),
                Err(e) => repo_type_of_name(s@) is None && e@ == "unknown repo type: "@ + s@
                    + " (expected model, dataset, or space)"@,
            },
    {
        RepoType::from_name(s)
    }
}

/// Identifies whether we're talking to a bucket or a repo.
#[derive(Debug, Clone)]
pub enum SourceKind {
    Bucket { bucket_id: String },
    Repo { repo_id: String, repo_type: RepoType, revision: String },
}

impl SourceKind {
    /// The name of this source.
    pub open spec fn name(self) -> Seq<char> {
        match self {
            SourceKind::Bucket { bucket_id } => "bucket/"@ + bucket_id@,
            SourceKind::Repo { repo_id, repo_type, revision } => repo_type.name() + "/"@ + repo_id@
                + "/"@ + revision@,
        }
    }

    /// The name of this source.
    pub fn to_string(&self) -> (s: String)
        ensures
            s@ == self.name(),
    {
        match self {
            SourceKind::Bucket { bucket_id } => {
                let mut s: String = "bucket/".to_owned();
                s.push_str(bucket_id.as_str());
                s
            },
            SourceKind::Repo { repo_id, repo_type, revision } => {
                let mut s: String = repo_type.to_string();
                s.push_str("/");
                s.push_str(repo_id.as_str());
                s.push_str("/");
                s.push_str(revision.as_str());
                s
            },
        }
    }
}

/// The kind and the bare id that a repo id with an optional kind in front
/// stands for.
pub open spec fn parsed_repo_id(repo_id: Seq<char>) -> (RepoType, Seq<char>) {
    if "datasets/"@.is_prefix_of(repo_id) {
        (RepoType::Dataset, repo_id.skip("datasets/"@.len() as int))
    } else if "spaces/"@.is_prefix_of(repo_id) {
        (RepoType::Space, repo_id.skip("spaces/"@.len() as int))
    } else {
        (RepoType::Model, repo_id)
    }
}

/// Parse a repo ID, extracting the type from an optional prefix.
/// "datasets/user/ds" → (Dataset, "user/ds")
/// "spaces/user/app" → (Space, "user/app")
/// "user/model" → (Model, "user/model")
pub fn parse_repo_id(repo_id: &str) -> (r: (RepoType, String))
    ensures
        r.0 == parsed_repo_id(repo_id@).0,
        r.1@ == parsed_repo_id(repo_id@).1,
{
    match text::strip_prefix(repo_id, "datasets/") {
        Some(rest) => (RepoType::Dataset, rest),
        None => match text::strip_prefix(repo_id, "spaces/") {
            Some(rest) => (RepoType::Space, rest),
            None => (RepoType::Model, repo_id.to_owned()),
        },
    }
}

/// The kind that an id names in front is the kind that its resolve route has.
pub proof fn law_repo_id_of_resolve_prefix(t: RepoType, id: Seq<char>)
    requires
        t == RepoType::Model ==> !"datasets/"@.is_prefix_of(id) && !"spaces/"@.is_prefix_of(id),
    ensures
        parsed_repo_id(t.resolve() + id) == (t, id),
{
    reveal_strlit("");
    reveal_strlit("datasets/");
    reveal_strlit("spaces/");
    let full = t.resolve() + id;
    match t {
        RepoType::Model => {
            assert(full =~= id);
        },
        RepoType::Dataset => {
            assert("datasets/"@ =~= full.subrange(0, "datasets/"@.len() as int));
            assert(full.skip("datasets/"@.len() as int) =~= id);
        },
        RepoType::Space => {
            assert("spaces/"@ =~= full.subrange(0, "spaces/"@.len() as int));
            assert(full.skip("spaces/"@.len() as int) =~= id);
            assert(full[0] == 's');
            assert("datasets/"@[0] == 'd');
        },
    }
}

/// Position of the second `/`, or the length of `s` if there are fewer.
pub open spec fn second_slash(s: Seq<char>) -> int {
    let first = text::find(s, '/') as int;
    if first >= s.len() {
        s.len() as int
    } else {
        first + 1 + text::find(s.skip(first + 1), '/')
    }
}

/// Whether a path has a component that names a directory relative to another.
pub open spec fn has_dot_component(path: Seq<char>) -> bool {
    exists|i: int|
        0 <= i < text::split(path, '/').len() && (#[trigger] text::split(path, '/')[i] == "."@
            || text::split(path, '/')[i] == ".."@)
}

/// The id and the subfolder in an identifier without slashes at its end, or
/// nothing if the subfolder is refused.
pub open spec fn split_identifier(raw: Seq<char>) -> Option<(Seq<char>, Seq<char>)> {
    let s = text::trim_end_char(raw, '/');
    let cut = second_slash(s);
    if cut >= s.len() {
        Some((s, Seq::empty()))
    } else if has_dot_component(s.skip(cut + 1)) {
        None
    } else {
        Some((s.take(cut), s.skip(cut + 1)))
    }
}

/// Whether a path has a component that names a directory relative to another.
fn contains_dot_component(path: &str) -> (r: bool)
    ensures
        r == has_dot_component(path@),
{
    let parts: Vec<String> = text::split_on(path, '/');
    let mut i: usize = 0;
    let ghost pieces = text::split(path@, '/');
    while i < parts.len()
        invariant
            i <= parts@.len(),
            pieces == text::views(parts@),
            pieces == text::split(path@, '/'),
            forall|j: int|
                0 <= j < i ==> #[trigger] text::split(path@, '/')[j] != "."@ && text::split(
                    path@,
                    '/',
                )[j] != ".."@,
        decreases parts@.len() - i,
    {
        assert(text::split(path@, '/')[i as int] == parts@[i as int]@);
        if text::eq(parts[i].as_str(), ".") || text::eq(parts[i].as_str(), "..") {
            return true;
        }
        i = i + 1;
    }
    false
}

proof fn lemma_trim_end_char(s: Seq<char>, c: char)
    ensures
        text::trim_end_char(s, c).len() <= s.len(),
        text::trim_end_char(s, c) == s.take(text::trim_end_char(s, c).len() as int),
    decreases s.len(),
{
    if s.len() > 0 && s.last() == c {
        lemma_trim_end_char(s.drop_last(), c);
        assert(s.drop_last().take(text::trim_end_char(s, c).len() as int) =~= s.take(
            text::trim_end_char(s, c).len() as int,
        ));
    } else {
        assert(s.take(s.len() as int) =~= s);
    }
}

/// Split a raw identifier into `(id, path_prefix)` after the first 2
/// `/`-separated segments.
/// E.g. `split_path_prefix("user/bucket/a/b")` → `("user/bucket", "a/b")`.
/// Trailing slashes are trimmed, and `.`/`..` components in the prefix are
/// rejected.
pub fn split_path_prefix<'a>(raw: &'a str) -> (r: Result<(&'a str, &'a str), &'static str>)
    ensures
        match r {
            Ok((id, prefix)) => split_identifier(raw@) == Some((id@, prefix@)),
            Err(e) => split_identifier(raw@) is None && e@
                == "path prefix must not contain '.' or '..' components"@,
        },
{
    let trimmed: String = text::trim_end_matches(raw, '/');
    let v: Vec<char> = text::chars_of(trimmed.as_str());
    let n: usize = v.len();
    let ghost s = v@;
    proof {
        lemma_trim_end_char(raw@, '/');
        assert(v@.skip(0) =~= v@);
        text::lemma_find(s, '/');
    }
    let first: usize = text::find_from(&v, 0, '/');
    let cut: usize = if first < n {
        text::find_from(&v, first + 1, '/')
    } else {
        n
    };
    assert(cut == second_slash(s));
    if cut == n {
        let id: &'a str = raw.substring_char(0, n);
        assert(id@ =~= s);
        let none: &'a str = raw.substring_char(0, 0);
        assert(none@ =~= Seq::empty());
        return Ok((id, none));
    }
    let prefix: &'a str = raw.substring_char(cut + 1, n);
    assert(prefix@ =~= s.skip(cut + 1));
    if contains_dot_component(prefix) {
        return Err("path prefix must not contain '.' or '..' components");
    }
    let id: &'a str = raw.substring_char(0, cut);
    assert(id@ =~= s.take(cut as int));
    Ok((id, prefix))
}

/// The routes of a kind go by its name: in the API by the plural, and to files by
/// the plural and a slash, but for models, whose files are at the top.
pub proof fn law_routes_go_by_the_name(t: RepoType)
    ensures
        t.api() == t.name().push('s'),
        t == RepoType::Model ==> t.resolve().len() == 0,
        t != RepoType::Model ==> t.resolve() == t.name() + seq!['s', '/'],
{
    reveal_strlit("model");
    reveal_strlit("dataset");
    reveal_strlit("space");
    reveal_strlit("models");
    reveal_strlit("datasets");
    reveal_strlit("spaces");
    reveal_strlit("");
    reveal_strlit("datasets/");
    reveal_strlit("spaces/");
    assert(t.api() =~= t.name().push('s'));
    if t != RepoType::Model {
        assert(t.resolve() =~= t.name() + seq!['s', '/']);
    }
}

/// The plural of a kind and a slash in front of an id says that it is of that kind,
/// and is no part of the id. Any other id is a model's, and is left as it is.
pub proof fn law_kind_in_front_of_an_id(t: RepoType, id: Seq<char>)
    ensures
        t != RepoType::Model ==> parsed_repo_id(t.name() + seq!['s', '/'] + id) == (t, id),
        parsed_repo_id(id).0 == RepoType::Model ==> parsed_repo_id(id).1 == id,
        parsed_repo_id(id).0 != RepoType::Model ==> id == parsed_repo_id(id).0.name() + seq![
            's',
            '/',
        ] + parsed_repo_id(id).1,
{
    if t != RepoType::Model {
        law_repo_id_of_resolve_prefix(t, id);
        law_routes_go_by_the_name(t);
    }
    let (kind, rest) = parsed_repo_id(id);
    if kind != RepoType::Model {
        law_routes_go_by_the_name(kind);
        assert(kind.resolve() + rest =~= id);
    }
}

/// Only the three names are names of a kind.
pub proof fn law_only_names_name_kinds(s: Seq<char>)
    ensures
        repo_type_of_name(s) matches Some(t) ==> t.name() == s,
        repo_type_of_name(s) is None ==> s != RepoType::Model.name() && s
            != RepoType::Dataset.name() && s != RepoType::Space.name(),
{
}

/// The name of a source names what it is, which one it is, and for a repository its
/// revision, with slashes in between.
pub proof fn law_name_of_a_source(s: SourceKind)
    ensures
        s matches SourceKind::Bucket { bucket_id } ==> s.name() == seq![
            'b',
            'u',
            'c',
            'k',
            'e',
            't',
            '/',
        ] + bucket_id@,
        s matches SourceKind::Repo { repo_id, repo_type, revision } ==> s.name()
            == repo_type.name().push('/') + repo_id@.push('/') + revision@,
{
    reveal_strlit("bucket/");
    reveal_strlit("/");
    match s {
        SourceKind::Bucket { bucket_id } => {
            assert(s.name() =~= seq!['b', 'u', 'c', 'k', 'e', 't', '/'] + bucket_id@);
        },
        SourceKind::Repo { repo_id, repo_type, revision } => {
            assert(s.name() =~= repo_type.name().push('/') + repo_id@.push('/') + revision@);
        },
    }
}

proof fn lemma_trim_none(s: Seq<char>)
    requires
        s.len() == 0 || s.last() != '/',
    ensures
        text::trim_end_char(s, '/') == s,
{
}

/// Slashes at the end of an identifier do not count.
pub proof fn law_slashes_at_the_end_do_not_count(raw: Seq<char>)
    ensures
        split_identifier(raw.push('/')) == split_identifier(raw),
{
    assert(raw.push('/').drop_last() =~= raw);
}

/// An identifier of two names is an id without a subfolder, and so is one name.
pub proof fn law_two_names_are_an_id(owner: Seq<char>, name: Seq<char>)
    requires
        !owner.contains('/'),
        !name.contains('/'),
        name.len() > 0,
    ensures
        split_identifier(owner.push('/') + name) == Some((owner.push('/') + name, Seq::<char>::empty())),
        split_identifier(name) == Some((name, Seq::<char>::empty())),
{
    let raw = owner.push('/') + name;
    assert(raw.last() == name.last());
    assert(name.contains(name.last()));
    lemma_trim_none(raw);
    lemma_trim_none(name);
    text::lemma_find(name, '/');
    lemma_find_after(owner, name);
}

/// Position of the first slash where one stands right after `head`.
proof fn lemma_find_after(head: Seq<char>, rest: Seq<char>)
    requires
        !head.contains('/'),
    ensures
        text::find(head.push('/') + rest, '/') == head.len(),
        (head.push('/') + rest).skip(head.len() as int + 1) == rest,
{
    let s = head.push('/') + rest;
    assert(s[head.len() as int] == '/');
    assert forall|j: int| 0 <= j < head.len() implies s[j] != '/' by {
        assert(s[j] == head[j]);
        assert(head.contains(head[j]));
    }
    text::lemma_find_unique(s, '/', head.len() as int);
    assert(s.skip(head.len() as int + 1) =~= rest);
}

/// What follows the first two names of an identifier is the subfolder, which is
/// refused exactly where one of its components is `.` or `..`.
pub proof fn law_subfolder_follows_two_names(
    owner: Seq<char>,
    name: Seq<char>,
    parts: Seq<Seq<char>>,
)
    requires
        !owner.contains('/'),
        !name.contains('/'),
        parts.len() > 0,
        forall|i: int| 0 <= i < parts.len() ==> !(#[trigger] parts[i]).contains('/'),
        parts.last().len() > 0,
    ensures
        ({
            let id = owner.push('/') + name;
            let subfolder = text::join(parts, '/');
            let dots = exists|i: int|
                0 <= i < parts.len() && ((#[trigger] parts[i]) == seq!['.'] || parts[i] == seq![
                    '.',
                    '.',
                ]);
            split_identifier(id.push('/') + subfolder) == if dots {
                None
            } else {
                Some((id, subfolder))
            }
        }),
{
    let id = owner.push('/') + name;
    let subfolder = text::join(parts, '/');
    let raw = id.push('/') + subfolder;
    let end = name.push('/') + subfolder;
    text::lemma_split_join(parts, '/');
    let front = parts.drop_last();
    assert(front.push(parts.last()) =~= parts);
    text::lemma_join_push(front, parts.last(), '/');
    assert(subfolder.len() > 0 && subfolder.last() == parts.last().last());
    assert(parts[parts.len() - 1].contains(parts.last().last()));
    assert(raw.last() == subfolder.last());
    lemma_trim_none(raw);
    assert(raw =~= owner.push('/') + end);
    lemma_find_after(owner, end);
    lemma_find_after(name, subfolder);
    let cut = id.len() as int;
    assert(second_slash(raw) == cut);
    assert(raw.take(cut) =~= id);
    assert(raw.skip(cut + 1) =~= subfolder);
    reveal_strlit(".");
    reveal_strlit("..");
    assert("."@ =~= seq!['.']);
    assert(".."@ =~= seq!['.', '.']);
    assert(text::split(subfolder, '/') == parts);
    if has_dot_component(subfolder) {
        let i = choose|i: int|
            0 <= i < text::split(subfolder, '/').len() && (#[trigger] text::split(
                subfolder,
                '/',
            )[i] == "."@ || text::split(subfolder, '/')[i] == ".."@);
        assert(parts[i] == seq!['.'] || parts[i] == seq!['.', '.']);
    } else if exists|i: int|
        0 <= i < parts.len() && ((#[trigger] parts[i]) == seq!['.'] || parts[i] == seq!['.', '.']) {
        let i = choose|i: int|
            0 <= i < parts.len() && ((#[trigger] parts[i]) == seq!['.'] || parts[i] == seq![
                '.',
                '.',
            ]);
        assert(text::split(subfolder, '/')[i] == parts[i]);
        assert(false);
    }
}

} // verus!
