//! The keys under which reflected values are serialized, and their order.
//!
//! A value whose type has migrations is written under `"{type_path}
//! {version}"`, any other value under its bare type path. Reading a key
//! splits it at its first space. The values of a map are written in
//! ascending order of their type paths.

use vstd::prelude::*;

use crate::reflect::migration::Migrator;
use crate::version::{
    SemVer,
    semver_parse,
    semver_text,
};

verus! {

/// Name of the serialized entity struct type.
pub const ENTITY_STRUCT: &'static str = "Entity";

/// Name of the serialized component field in an entity struct.
pub const ENTITY_FIELD_COMPONENTS: &'static str = "components";

/// The key a value of type `path` is written under, with the version of its
/// migrations if it has any.
pub open spec fn key_text(
    path: Seq<char>,
    version: Option<(u64, u64, u64, Seq<char>, Seq<char>)>,
) -> Seq<char> {
    match version {
        Some(v) => path + seq![' '] + semver_text(v),
        None => path,
    }
}

/// The position of the first space in `s`, if any.
pub open spec fn first_space(s: Seq<char>) -> Option<int> {
    if exists|i: int| 0 <= i < s.len() && s[i] == ' ' {
        Some(choose|i: int| 0 <= i < s.len() && s[i] == ' ' && forall|j: int| 0 <= j < i ==> s[j] != ' ')
    } else {
        None
    }
}

/// A key split at its first space: the type path, and the version text if
/// there was a space.
pub open spec fn split_key(key: Seq<char>) -> (Seq<char>, Option<Seq<char>>) {
    match first_space(key) {
        Some(i) => (key.take(i), Some(key.skip(i + 1))),
        None => (key, None),
    }
}

/// Whether `s` holds no space.
pub open spec fn no_space(s: Seq<char>) -> bool {
    forall|i: int| 0 <= i < s.len() ==> s[i] != ' '
}

/// `a` sorts strictly before `b`, comparing characters by their scalar
/// values, as `str`'s `Ord` does.
pub open spec fn text_lt(a: Seq<char>, b: Seq<char>) -> bool
    decreases a.len(),
{
    if a.len() == 0 {
        b.len() > 0
    } else if b.len() == 0 {
        false
    } else if a[0] != b[0] {
        (a[0] as int) < (b[0] as int)
    } else {
        text_lt(a.drop_first(), b.drop_first())
    }
}

/// Errors in reading a serialized key.
#[derive(Debug)]
pub enum TypeKeyError {
    /// The text after the space is not a semver version.
    InvalidVersion(String),
    /// No registration is found for the type path.
    NoRegistration(String),
    /// The registration found for a versioned key has no migrations.
    MigrateNotRegistered(String),
    /// The migrations of the registration found have no step for the
    /// version: the key's type path, the type path of the registration and
    /// the version.
    NoMigration { type_path: String, output: String, version: SemVer },
}

/// The key a reflected value of type `type_path` is serialized under:
/// `"{type_path} {version}"` when its type has migrations, else the bare
/// type path.
pub fn type_key(type_path: &str, version: Option<&SemVer>) -> (r: String)
    ensures
        r@ == key_text(
            type_path@,
            match version {
                Some(v) => Some(v@),
                None => None,
            },
        ),
{
    let mut key = String::from_str(type_path);
    match version {
        Some(v) => {
            key.append(" ");
            let text = v.to_text();
            key.append(text.as_str());
            proof {
                reveal_strlit(" ");
            }
        },
        None => {},
    }
    key
}

/// Finds the first space of a text.
fn find_first_space(text: &str) -> (r: Option<usize>)
    ensures
        match r {
            Some(i) => i < text@.len() && text@[i as int] == ' ' && forall|j: int|
                0 <= j < i ==> text@[j] != ' ',
            None => no_space(text@),
        },
{
    let n = text.unicode_len();
    let mut i: usize = 0;
    while i < n
        invariant
            n == text@.len(),
            i <= n,
            forall|j: int| 0 <= j < i ==> text@[j] != ' ',
        decreases n - i,
    {
        if text.get_char(i) == ' ' {
            return Some(i);
        }
        i = i + 1;
    }
    None
}

proof fn lemma_first_space(s: Seq<char>, i: int)
    requires
        0 <= i < s.len(),
        s[i] == ' ',
        forall|j: int| 0 <= j < i ==> s[j] != ' ',
    ensures
        first_space(s) == Some(i),
{
    let c = choose|k: int| 0 <= k < s.len() && s[k] == ' ' && forall|j: int| 0 <= j < k ==> s[j] != ' ';
    assert(0 <= c < s.len() && s[c] == ' ' && forall|j: int| 0 <= j < c ==> s[j] != ' ');
    if c < i {
        assert(s[c] != ' ');
    }
    if i < c {
        assert(s[i] != ' ');
    }
}

/// Splits a serialized key at its first space into the type path and, if
/// there is a space, the version text after it.
pub fn split_type_key(key: &str) -> (r: (String, Option<String>))
    ensures
        r.0@ == split_key(key@).0,
        match r.1 {
            Some(v) => split_key(key@).1 == Some(v@),
            None => split_key(key@).1 is None,
        },
{
    match find_first_space(key) {
        Some(i) => {
            proof {
                lemma_first_space(key@, i as int);
            }
            let n = key.unicode_len();
            let path = key.substring_char(0, i);
            let version = key.substring_char(i + 1, n);
            proof {
                assert(key@.subrange(0, i as int) =~= key@.take(i as int));
                assert(key@.subrange(i + 1, n as int) =~= key@.skip(i + 1));
            }
            (String::from_str(path), Some(String::from_str(version)))
        },
        None => {
            proof {
                assert(!(exists|i: int| 0 <= i < key@.len() && key@[i] == ' '));
            }
            (String::from_str(key), None)
        },
    }
}

/// Reads a serialized key: the type path, and the version it was written
/// at if the key has one.
///
/// # Errors
/// - [`TypeKeyError::InvalidVersion`] if the text after the first space is
///   not a semver version; it carries that text.
pub fn parse_type_key(key: &str) -> (r: Result<(String, Option<SemVer>), TypeKeyError>)
    ensures
        match split_key(key@) {
            (path, None) => r matches Ok((p, None)) && p@ == path,
            (path, Some(text)) => match semver_parse(text) {
                Some(v) => r matches Ok((p, Some(ver))) && p@ == path && ver@ == v,
                None => r matches Err(TypeKeyError::InvalidVersion(t)) && t@ == text,
            },
        },
{
    let (path, version) = split_type_key(key);
    match version {
        None => Ok((path, None)),
        Some(text) => match SemVer::parse(text.as_str()) {
            Ok(v) => Ok((path, Some(v))),
            Err(_) => Err(TypeKeyError::InvalidVersion(text)),
        },
    }
}

/// Whether `a` sorts strictly before `b` by character scalar values.
pub fn text_less(a: &str, b: &str) -> (r: bool)
    ensures
        r == text_lt(a@, b@),
{
    let n = a.unicode_len();
    let m = b.unicode_len();
    let mut i: usize = 0;
    proof {
        assert(a@.skip(0) =~= a@);
        assert(b@.skip(0) =~= b@);
    }
    while i < n && i < m
        invariant
            n == a@.len(),
            m == b@.len(),
            i <= n,
            i <= m,
            text_lt(a@, b@) == text_lt(a@.skip(i as int), b@.skip(i as int)),
        decreases n - i,
    {
        let x = a.get_char(i);
        let y = b.get_char(i);
        proof {
            assert(a@.skip(i as int)[0] == x);
            assert(b@.skip(i as int)[0] == y);
            assert(a@.skip(i as int).drop_first() =~= a@.skip(i + 1));
            assert(b@.skip(i as int).drop_first() =~= b@.skip(i + 1));
        }
        if x != y {
            let xv: u32 = x as u32;
            let yv: u32 = y as u32;
            return xv < yv;
        }
        i = i + 1;
    }
    proof {
        if i == n {
            assert(a@.skip(i as int).len() == 0);
        } else {
            assert(b@.skip(i as int).len() == 0);
        }
    }
    i == n && i < m
}

/// `text_lt` is a strict order: irreflexive and transitive.
pub proof fn lemma_text_lt_strict(a: Seq<char>, b: Seq<char>, c: Seq<char>)
    ensures
        !text_lt(a, a),
        text_lt(a, b) && text_lt(b, c) ==> text_lt(a, c),
    decreases a.len(),
{
    if a.len() > 0 {
        lemma_text_lt_strict(a.drop_first(), a.drop_first(), a.drop_first());
    }
    if text_lt(a, b) && text_lt(b, c) {
        if a.len() > 0 && b.len() > 0 && c.len() > 0 && a[0] == b[0] && b[0] == c[0] {
            lemma_text_lt_strict(a.drop_first(), b.drop_first(), c.drop_first());
        }
    }
}

/// `text_lt` is total: of two different texts, one sorts before the other.
pub proof fn lemma_text_lt_total(a: Seq<char>, b: Seq<char>)
    ensures
        a != b ==> text_lt(a, b) || text_lt(b, a),
    decreases a.len(),
{
    if a.len() > 0 && b.len() > 0 && a[0] == b[0] {
        lemma_text_lt_total(a.drop_first(), b.drop_first());
        if a.drop_first() == b.drop_first() {
            assert(a =~= seq![a[0]] + a.drop_first());
            assert(b =~= seq![b[0]] + b.drop_first());
        }
    }
    if a.len() > 0 && b.len() > 0 && a[0] != b[0] {
    }
    if a.len() == 0 && b.len() == 0 {
        assert(a =~= b);
    }
}

/// The order in which entries with the given type paths are written: a
/// permutation of their positions, sorted by type path, entries with equal
/// paths keeping their relative order.
pub fn sorted_by_type_path(paths: &Vec<String>) -> (r: Vec<usize>)
    ensures
        r@.len() == paths@.len(),
        forall|k: int| 0 <= k < r@.len() ==> r@[k] < paths@.len(),
        forall|a: int, b: int| 0 <= a < b < r@.len() ==> r@[a] != r@[b],
        forall|a: int, b: int|
            0 <= a < b < r@.len() ==> !text_lt(paths@[r@[b] as int]@, paths@[r@[a] as int]@),
        forall|a: int, b: int|
            0 <= a < b < r@.len() && paths@[r@[a] as int]@ == paths@[r@[b] as int]@ ==> r@[a]
                < r@[b],
{
    let n = paths.len();
    let mut order: Vec<usize> = Vec::new();
    let mut i: usize = 0;
    while i < n
        invariant
            n == paths@.len(),
            i <= n,
            order@.len() == i,
            forall|k: int| 0 <= k < order@.len() ==> order@[k] < i,
            forall|a: int, b: int| 0 <= a < b < order@.len() ==> order@[a] != order@[b],
            forall|a: int, b: int|
                0 <= a < b < order@.len() ==> !text_lt(
                    paths@[order@[b] as int]@,
                    paths@[order@[a] as int]@,
                ),
            forall|a: int, b: int|
                0 <= a < b < order@.len() && paths@[order@[a] as int]@ == paths@[order@[b] as int]@
                    ==> order@[a] < order@[b],
        decreases n - i,
    {
        let mut k: usize = order.len();
        while k > 0
            invariant
                n == paths@.len(),
                i < n,
                k <= order@.len(),
                order@.len() == i,
                forall|q: int| 0 <= q < order@.len() ==> order@[q] < i,
                forall|a: int, b: int|
                    0 <= a < b < order@.len() ==> !text_lt(
                        paths@[order@[b] as int]@,
                        paths@[order@[a] as int]@,
                    ),
                forall|q: int|
                    k <= q < order@.len() ==> text_lt(
                        paths@[i as int]@,
                        paths@[order@[q] as int]@,
                    ),
            ensures
                k <= order@.len(),
                forall|q: int|
                    k <= q < order@.len() ==> text_lt(
                        paths@[i as int]@,
                        paths@[order@[q] as int]@,
                    ),
                forall|q: int|
                    0 <= q < k ==> !text_lt(paths@[i as int]@, paths@[order@[q] as int]@),
            decreases k,
        {
            let prev = order[k - 1];
            if text_less(paths[i].as_str(), paths[prev].as_str()) {
                k = k - 1;
            } else {
                proof {
                    assert forall|q: int| 0 <= q < k implies !text_lt(
                        paths@[i as int]@,
                        paths@[order@[q] as int]@,
                    ) by {
                        if q < k - 1 {
                            let pq = paths@[order@[q] as int]@;
                            let pp = paths@[prev as int]@;
                            let pi = paths@[i as int]@;
                            assert(!text_lt(pp, pq));
                            lemma_text_lt_strict(pi, pq, pp);
                            lemma_text_lt_total(pq, pp);
                            if text_lt(pi, pq) {
                                if pq == pp {
                                } else {
                                    lemma_text_lt_strict(pi, pq, pp);
                                }
                            }
                        }
                    }
                }
                break;
            }
        }
        let ghost before = order@;
        order.insert(k, i);
        proof {
            assert(order@ == before.insert(k as int, i));
            assert forall|a: int, b: int| 0 <= a < b < order@.len() implies !text_lt(
                paths@[order@[b] as int]@,
                paths@[order@[a] as int]@,
            ) by {
                if b < k {
                } else if b == k {
                } else if a < k {
                    let pa = paths@[before[a] as int]@;
                    let pi = paths@[i as int]@;
                    let pb = paths@[before[b - 1] as int]@;
                    assert(!text_lt(pi, pa));
                    assert(text_lt(pi, pb));
                    lemma_text_lt_strict(pb, pi, pa);
                    lemma_text_lt_strict(pi, pb, pa);
                    lemma_text_lt_total(pa, pi);
                    if text_lt(pb, pa) {
                        if pa == pi {
                        } else {
                            assert(text_lt(pa, pi));
                            lemma_text_lt_strict(pb, pa, pi);
                            lemma_text_lt_strict(pi, pb, pi);
                        }
                    }
                } else if a == k {
                    let pi = paths@[i as int]@;
                    let pb = paths@[before[b - 1] as int]@;
                    assert(text_lt(pi, pb));
                    lemma_text_lt_strict(pb, pi, pb);
                    lemma_text_lt_strict(pi, pb, pi);
                } else {
                }
            }
            assert forall|a: int, b: int|
                0 <= a < b < order@.len() && paths@[order@[a] as int]@ == paths@[order@[b] as int]@
                    implies order@[a] < order@[b] by {
                if b < k {
                } else if b == k {
                } else if a < k {
                } else if a == k {
                    let pi = paths@[i as int]@;
                    assert(text_lt(pi, paths@[before[b - 1] as int]@));
                    lemma_text_lt_strict(pi, pi, pi);
                } else {
                }
            }
        }
        i = i + 1;
    }
    order
}

/// A registration of the type registry, as resolving a key reads it: its
/// type path and the migrations registered for its type, if any.
pub struct KeyRegistration<'a, S> {
    /// The type path of the registered type.
    pub type_path: String,
    /// The migrations of the type.
    pub migrator: Option<&'a Migrator<S>>,
}

/// What a key resolves to.
pub enum ResolvedKey<'a, S> {
    /// A key without version: the registration (by position) to read the
    /// value with.
    Unversioned(usize),
    /// A key with a version: the version, the registration (by position)
    /// whose migrations apply, and the step the value is read with.
    Versioned { version: SemVer, output: usize, input: &'a S },
}

/// Whether registration `r` is registered under `path`.
pub open spec fn registered_as<S>(r: KeyRegistration<S>, path: Seq<char>) -> bool {
    r.type_path@ == path
}

/// Whether the migrations of registration `r` take values saved under
/// `path`.
pub open spec fn migrates_from<S>(r: KeyRegistration<S>, path: Seq<char>) -> bool {
    match r.migrator {
        Some(m) => m.type_paths().contains(path),
        None => false,
    }
}

/// The first registration under `path`, by position.
pub open spec fn first_registered<S>(regs: Seq<KeyRegistration<S>>, path: Seq<char>) -> Option<int> {
    if exists|i: int| 0 <= i < regs.len() && #[trigger] registered_as(regs[i], path) {
        Some(
            choose|i: int|
                0 <= i < regs.len() && registered_as(regs[i], path) && forall|j: int|
                    0 <= j < i ==> !#[trigger] registered_as(regs[j], path),
        )
    } else {
        None
    }
}

/// The first registration whose migrations take `path`, by position.
pub open spec fn first_migrating<S>(regs: Seq<KeyRegistration<S>>, path: Seq<char>) -> Option<int> {
    if exists|i: int| 0 <= i < regs.len() && #[trigger] migrates_from(regs[i], path) {
        Some(
            choose|i: int|
                0 <= i < regs.len() && migrates_from(regs[i], path) && forall|j: int|
                    0 <= j < i ==> !#[trigger] migrates_from(regs[j], path),
        )
    } else {
        None
    }
}

/// The registration whose migrations a versioned key under `path` goes to:
/// the one registered under `path`, else the first whose migrations take
/// `path`.
pub open spec fn migration_target<S>(regs: Seq<KeyRegistration<S>>, path: Seq<char>) -> Option<int> {
    match first_registered(regs, path) {
        Some(i) => Some(i),
        None => first_migrating(regs, path),
    }
}

/// Finds the first registration under `path`.
fn find_registered<'a, S>(regs: &Vec<KeyRegistration<'a, S>>, path: &String) -> (r: Option<usize>)
    ensures
        match r {
            Some(i) => i < regs@.len() && first_registered(regs@, path@) == Some(i as int),
            None => first_registered(regs@, path@) is None,
        },
{
    let mut i: usize = 0;
    while i < regs.len()
        invariant
            i <= regs@.len(),
            forall|j: int| 0 <= j < i ==> !#[trigger] registered_as(regs@[j], path@),
        decreases regs@.len() - i,
    {
        if regs[i].type_path == *path {
            proof {
                let c = choose|c: int|
                    0 <= c < regs@.len() && registered_as(regs@[c], path@) && forall|j: int|
                        0 <= j < c ==> !#[trigger] registered_as(regs@[j], path@);
                assert(registered_as(regs@[i as int], path@));
                if c < i {
                    assert(!registered_as(regs@[c], path@));
                }
                if i < c {
                    assert(!registered_as(regs@[i as int], path@));
                }
            }
            return Some(i);
        }
        i = i + 1;
    }
    None
}

/// Finds the first registration whose migrations take `path`.
fn find_migrating<'a, S>(regs: &Vec<KeyRegistration<'a, S>>, path: &String) -> (r: Option<usize>)
    ensures
        match r {
            Some(i) => i < regs@.len() && first_migrating(regs@, path@) == Some(i as int),
            None => first_migrating(regs@, path@) is None,
        },
{
    let mut i: usize = 0;
    while i < regs.len()
        invariant
            i <= regs@.len(),
            forall|j: int| 0 <= j < i ==> !#[trigger] migrates_from(regs@[j], path@),
        decreases regs@.len() - i,
    {
        let hit = match regs[i].migrator {
            Some(m) => m.matches(path.as_str()),
            None => false,
        };
        if hit {
            proof {
                let c = choose|c: int|
                    0 <= c < regs@.len() && migrates_from(regs@[c], path@) && forall|j: int|
                        0 <= j < c ==> !#[trigger] migrates_from(regs@[j], path@);
                assert(migrates_from(regs@[i as int], path@));
                if c < i {
                    assert(!migrates_from(regs@[c], path@));
                }
                if i < c {
                    assert(!migrates_from(regs@[i as int], path@));
                }
            }
            return Some(i);
        }
        i = i + 1;
    }
    None
}

/// Resolves a serialized key against the registrations of a type registry.
///
/// A key without version resolves to the registration under its type path.
/// A key with a version resolves to the registration under its type path,
/// or else to the first whose migrations take that path; that registration
/// must have migrations, with a step for exactly that version.
///
/// # Errors
/// - [`TypeKeyError::InvalidVersion`] if the version text is not a semver
///   version.
/// - [`TypeKeyError::NoRegistration`] if no registration is found.
/// - [`TypeKeyError::MigrateNotRegistered`] if the registration found for a
///   versioned key has no migrations.
/// - [`TypeKeyError::NoMigration`] if its migrations have no step for the
///   version.
pub fn resolve_type_key<'a, S>(key: &str, regs: &Vec<KeyRegistration<'a, S>>) -> (r: Result<
    ResolvedKey<'a, S>,
    TypeKeyError,
>)
    ensures
        match split_key(key@) {
            (path, None) => match first_registered(regs@, path) {
                Some(i) => r == Ok::<ResolvedKey<'a, S>, TypeKeyError>(
                    ResolvedKey::Unversioned(i as usize),
                ),
                None => r matches Err(TypeKeyError::NoRegistration(p)) && p@ == path,
            },
            (path, Some(text)) => match semver_parse(text) {
                None => r matches Err(TypeKeyError::InvalidVersion(t)) && t@ == text,
                Some(v) => match migration_target(regs@, path) {
                    None => r matches Err(TypeKeyError::NoRegistration(p)) && p@ == path,
                    Some(o) => match regs@[o].migrator {
                        None => r matches Err(TypeKeyError::MigrateNotRegistered(p)) && p@ == path,
                        Some(m) => if m.versions().contains(v) {
                            r matches Ok(ResolvedKey::Versioned { version, output, input }) && version@
                                == v && output == o && exists|k: int|
                                0 <= k < m.versions().len() && m.versions()[k] == v
                                    && m.steps()[k] == *input
                        } else {
                            r matches Err(
                                TypeKeyError::NoMigration { type_path, output, version },
                            ) && type_path@ == path && output@ == regs@[o].type_path@ && version@
                                == v
                        },
                    },
                },
            },
        },
{
    let (path, version) = match parse_type_key(key) {
        Ok(parsed) => parsed,
        Err(e) => {
            return Err(e);
        },
    };
    match version {
        None => match find_registered(regs, &path) {
            Some(i) => Ok(ResolvedKey::Unversioned(i)),
            None => Err(TypeKeyError::NoRegistration(path)),
        },
        Some(version) => {
            let output = match find_registered(regs, &path) {
                Some(i) => i,
                None => match find_migrating(regs, &path) {
                    Some(i) => i,
                    None => {
                        return Err(TypeKeyError::NoRegistration(path));
                    },
                },
            };
            let migrator = match regs[output].migrator {
                Some(m) => m,
                None => {
                    return Err(TypeKeyError::MigrateNotRegistered(path));
                },
            };
            match migrator.registration(&version) {
                Some(input) => Ok(ResolvedKey::Versioned { version, output, input }),
                None => Err(
                    TypeKeyError::NoMigration {
                        type_path: path,
                        output: regs[output].type_path.clone(),
                        version,
                    },
                ),
            }
        },
    }
}

/// The view of an optional version.
pub open spec fn version_view(v: Option<&SemVer>) -> Option<(u64, u64, u64, Seq<char>, Seq<char>)> {
    match v {
        Some(v) => Some(v@),
        None => None,
    }
}

/// The entries of a map of reflected values, as written: each entry's
/// position with the key it is written under, in ascending order of type
/// path (entries with equal paths in their order). Entry `i` has type path
/// `paths[i]` and, if its type has migrations, their latest version
/// `versions[i]`.
pub fn map_entry_keys(paths: &Vec<String>, versions: &Vec<Option<&SemVer>>) -> (r: Vec<(usize, String)>)
    requires
        paths@.len() == versions@.len(),
    ensures
        r@.len() == paths@.len(),
        forall|k: int| 0 <= k < r@.len() ==> (#[trigger] r@[k]).0 < paths@.len(),
        forall|a: int, b: int| 0 <= a < b < r@.len() ==> r@[a].0 != r@[b].0,
        forall|a: int, b: int|
            0 <= a < b < r@.len() ==> !text_lt(paths@[r@[b].0 as int]@, paths@[r@[a].0 as int]@),
        forall|a: int, b: int|
            0 <= a < b < r@.len() && paths@[r@[a].0 as int]@ == paths@[r@[b].0 as int]@ ==> r@[a].0
                < r@[b].0,
        forall|k: int|
            0 <= k < r@.len() ==> (#[trigger] r@[k]).1@ == key_text(
                paths@[r@[k].0 as int]@,
                version_view(versions@[r@[k].0 as int]),
            ),
{
    let order = sorted_by_type_path(paths);
    let mut r: Vec<(usize, String)> = Vec::new();
    let mut k: usize = 0;
    while k < order.len()
        invariant
            k <= order@.len(),
            order@.len() == paths@.len(),
            paths@.len() == versions@.len(),
            forall|j: int| 0 <= j < order@.len() ==> order@[j] < paths@.len(),
            r@.len() == k,
            forall|j: int|
                0 <= j < k ==> (#[trigger] r@[j]).0 == order@[j] && r@[j].1@ == key_text(
                    paths@[order@[j] as int]@,
                    version_view(versions@[order@[j] as int]),
                ),
        decreases order@.len() - k,
    {
        let i = order[k];
        let key = type_key(paths[i].as_str(), versions[i]);
        r.push((i, key));
        k = k + 1;
    }
    r
}

/// A key written for a type path without spaces splits back into that type
/// path and the version text that was written.
pub proof fn law_key_roundtrip(
    path: Seq<char>,
    version: Option<(u64, u64, u64, Seq<char>, Seq<char>)>,
)
    requires
        no_space(path),
    ensures
        split_key(key_text(path, version)) == (
            path,
            match version {
                Some(v) => Some(semver_text(v)),
                None => None::<Seq<char>>,
            },
        ),
{
    match version {
        Some(v) => {
            let key = key_text(path, version);
            assert(key[path.len() as int] == ' ');
            assert forall|j: int| 0 <= j < path.len() implies key[j] != ' ' by {
                assert(key[j] == path[j]);
            }
            lemma_first_space(key, path.len() as int);
            assert(key.take(path.len() as int) =~= path);
            assert(key.skip(path.len() as int + 1) =~= semver_text(v));
        },
        None => {
            assert(!(exists|i: int| 0 <= i < path.len() && path[i] == ' '));
        },
    }
}

} // verus!
