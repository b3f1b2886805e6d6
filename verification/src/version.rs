//! Semantic versions, as read and compared by the `semver` crate.

use vstd::prelude::*;

use semver::Version as RawVersion;

verus! {

/// The `semver` crate's parse error.
#[verifier::external_type_specification]
#[verifier::external_body]
pub struct ExSemverError(semver::Error);

/// The `semver` crate's version value.
#[verifier::external_type_specification]
#[verifier::external_body]
pub struct ExSemverVersion(RawVersion);

/// Precedence of one version relative to another.
#[derive(Clone, Copy, Debug, PartialEq, Eq, Structural)]
pub enum Precedence {
    Less,
    Equal,
    Greater,
}

impl Precedence {
    /// The precedence seen from the other side of the comparison.
    pub open spec fn flip(self) -> Precedence {
        match self {
            Precedence::Less => Precedence::Greater,
            Precedence::Equal => Precedence::Equal,
            Precedence::Greater => Precedence::Less,
        }
    }
}

/// A semantic version: `MAJOR.MINOR.PATCH[-PRE][+BUILD]`.
///
/// The numeric parts and the pre-release and build texts are kept as plain
/// values; the `semver` value they were read from is carried along so that
/// comparisons and printing go through the `semver` crate itself.
#[derive(Debug)]
pub struct SemVer {
    major: u64,
    minor: u64,
    patch: u64,
    pre: String,
    build: String,
    raw: RawVersion,
}

impl View for SemVer {
    type V = (u64, u64, u64, Seq<char>, Seq<char>);

    closed spec fn view(&self) -> (u64, u64, u64, Seq<char>, Seq<char>) {
        (self.major, self.minor, self.patch, self.pre@, self.build@)
    }
}

/// What `semver::Version::from_str` makes of a text, as the parts of the
/// version (or `None` where it returns an error).
pub uninterp spec fn semver_parse(text: Seq<char>) -> Option<(u64, u64, u64, Seq<char>, Seq<char>)>;

/// The precedence that `semver`'s `Ord` for `Version` gives two versions.
pub uninterp spec fn semver_order(
    a: (u64, u64, u64, Seq<char>, Seq<char>),
    b: (u64, u64, u64, Seq<char>, Seq<char>),
) -> Precedence;

/// The lexicographic precedence of two `MAJOR.MINOR.PATCH` triples.
pub open spec fn triple_order(a: (u64, u64, u64), b: (u64, u64, u64)) -> Precedence {
    if a.0 < b.0 {
        Precedence::Less
    } else if a.0 > b.0 {
        Precedence::Greater
    } else if a.1 < b.1 {
        Precedence::Less
    } else if a.1 > b.1 {
        Precedence::Greater
    } else if a.2 < b.2 {
        Precedence::Less
    } else if a.2 > b.2 {
        Precedence::Greater
    } else {
        Precedence::Equal
    }
}

/// `v` is at or after the release `t.0.t.1.t.2` (no pre-release, no build
/// metadata): its triple is greater, or equal with no pre-release.
pub open spec fn at_or_after(v: (u64, u64, u64, Seq<char>, Seq<char>), t: (u64, u64, u64)) -> bool {
    ||| triple_order((v.0, v.1, v.2), t) == Precedence::Greater
    ||| triple_order((v.0, v.1, v.2), t) == Precedence::Equal && v.3.len() == 0
}

/// The decimal digits of a number, most significant first.
pub open spec fn decimal(n: nat) -> Seq<char>
    decreases n,
{
    let digit = seq!['0', '1', '2', '3', '4', '5', '6', '7', '8', '9'][(n % 10) as int];
    if n < 10 {
        seq![digit]
    } else {
        decimal(n / 10) + seq![digit]
    }
}

/// The text `semver` prints for a version: `MAJOR.MINOR.PATCH`, then
/// `-PRE` if there is a pre-release and `+BUILD` if there is build metadata.
pub open spec fn semver_text(v: (u64, u64, u64, Seq<char>, Seq<char>)) -> Seq<char> {
    decimal(v.0 as nat) + seq!['.'] + decimal(v.1 as nat) + seq!['.'] + decimal(v.2 as nat) + (
    if v.3.len() == 0 {
        Seq::empty()
    } else {
        seq!['-'] + v.3
    }) + (if v.4.len() == 0 {
        Seq::empty()
    } else {
        seq!['+'] + v.4
    })
}

/// Reads a version with `semver::Version::from_str`.
///
/// Claims: the result is `Ok` exactly when [`semver_parse`] gives a version,
/// and then holds that version; the empty text is refused (the first check
/// of `from_str`).
#[verifier::external_body]
fn semver_from_str(text: &str) -> (r: Result<SemVer, semver::Error>)
    ensures
        r is Ok <==> semver_parse(text@) is Some,
        r matches Ok(v) ==> semver_parse(text@) == Some(v@),
        text@.len() == 0 ==> r is Err,
{
    match text.parse::<RawVersion>() {
        Ok(raw) => Ok(SemVer {
            major: raw.major,
            minor: raw.minor,
            patch: raw.patch,
            pre: raw.pre.as_str().to_string(),
            build: raw.build.as_str().to_string(),
            raw,
        }),
        Err(e) => Err(e),
    }
}

/// Makes a version with `semver::Version::new`: no pre-release and no build
/// metadata.
#[verifier::external_body]
fn semver_new(major: u64, minor: u64, patch: u64) -> (r: SemVer)
    ensures
        r@ == (major, minor, patch, Seq::<char>::empty(), Seq::<char>::empty()),
{
    SemVer {
        major,
        minor,
        patch,
        pre: String::new(),
        build: String::new(),
        raw: RawVersion::new(major, minor, patch),
    }
}

/// Compares two versions with `semver`'s `Ord` for `Version`.
///
/// Claims what the derived `Ord` over (major, minor, patch, pre, build) and
/// the `Ord` of `Prerelease` in the crate's source show: the triples decide
/// first; with equal triples a version without pre-release is greater than
/// one with; the order is antisymmetric; and it is `Equal` exactly for equal
/// versions; as `Ord` demands, it is transitive (strictly so when one side is strict); with equal triples and pre-releases, non-empty build metadata
/// is greater than none (its first identifier is non-empty, and `""` splits
/// into one empty identifier that sorts first). The comparison of two
/// non-empty pre-releases, or of two non-empty build texts, is left unsaid
/// beyond that.
#[verifier::external_body]
fn semver_cmp(a: &SemVer, b: &SemVer) -> (r: Precedence)
    ensures
        r == semver_order(a@, b@),
        semver_order(b@, a@) == r.flip(),
        (r == Precedence::Equal) <==> (a@ == b@),
        triple_order((a@.0, a@.1, a@.2), (b@.0, b@.1, b@.2)) != Precedence::Equal ==> r
            == triple_order((a@.0, a@.1, a@.2), (b@.0, b@.1, b@.2)),
        triple_order((a@.0, a@.1, a@.2), (b@.0, b@.1, b@.2)) == Precedence::Equal && a@.3.len()
            == 0 && b@.3.len() != 0 ==> r == Precedence::Greater,
        triple_order((a@.0, a@.1, a@.2), (b@.0, b@.1, b@.2)) == Precedence::Equal && a@.3.len()
            != 0 && b@.3.len() == 0 ==> r == Precedence::Less,
        triple_order((a@.0, a@.1, a@.2), (b@.0, b@.1, b@.2)) == Precedence::Equal && a@.3 == b@.3
            && a@.4.len() != 0 && b@.4.len() == 0 ==> r == Precedence::Greater,
        triple_order((a@.0, a@.1, a@.2), (b@.0, b@.1, b@.2)) == Precedence::Equal && a@.3 == b@.3
            && a@.4.len() == 0 && b@.4.len() != 0 ==> r == Precedence::Less,
        r != Precedence::Greater ==> forall|c: (u64, u64, u64, Seq<char>, Seq<char>)|
            semver_order(b@, c) != Precedence::Greater ==> #[trigger] semver_order(a@, c)
                != Precedence::Greater,
        r != Precedence::Greater ==> forall|c: (u64, u64, u64, Seq<char>, Seq<char>)|
            semver_order(c, a@) != Precedence::Greater ==> #[trigger] semver_order(c, b@)
                != Precedence::Greater,
        r == Precedence::Less ==> forall|c: (u64, u64, u64, Seq<char>, Seq<char>)|
            semver_order(b@, c) != Precedence::Greater ==> #[trigger] semver_order(a@, c)
                == Precedence::Less,
        r == Precedence::Less ==> forall|c: (u64, u64, u64, Seq<char>, Seq<char>)|
            semver_order(c, a@) != Precedence::Greater ==> #[trigger] semver_order(c, b@)
                == Precedence::Less,
{
    match a.raw.cmp(&b.raw) {
        std::cmp::Ordering::Less => Precedence::Less,
        std::cmp::Ordering::Equal => Precedence::Equal,
        std::cmp::Ordering::Greater => Precedence::Greater,
    }
}

/// Prints a version with `semver`'s `Display` for `Version`.
///
/// Claims the text that `display.rs` writes: see [`semver_text`].
#[verifier::external_body]
fn semver_to_string(v: &SemVer) -> (r: String)
    ensures
        r@ == semver_text(v@),
{
    v.raw.to_string()
}

/// Copies a version with `semver`'s `Clone` for `Version`.
#[verifier::external_body]
fn semver_clone(v: &SemVer) -> (r: SemVer)
    ensures
        r@ == v@,
{
    SemVer {
        major: v.major,
        minor: v.minor,
        patch: v.patch,
        pre: v.pre.clone(),
        build: v.build.clone(),
        raw: v.raw.clone(),
    }
}

impl SemVer {
    /// Parses a version text such as `1.2.3-alpha.1+build.5`.
    pub fn parse(text: &str) -> (r: Result<SemVer, semver::Error>)
        ensures
            r is Ok <==> semver_parse(text@) is Some,
            r matches Ok(v) ==> semver_parse(text@) == Some(v@),
    {
        semver_from_str(text)
    }

    /// The version `major.minor.patch`, without pre-release or build metadata.
    pub fn new(major: u64, minor: u64, patch: u64) -> (r: SemVer)
        ensures
            r@ == (major, minor, patch, Seq::<char>::empty(), Seq::<char>::empty()),
    {
        semver_new(major, minor, patch)
    }

    pub fn major(&self) -> (r: u64)
        ensures
            r == self@.0,
    {
        self.major
    }

    pub fn minor(&self) -> (r: u64)
        ensures
            r == self@.1,
    {
        self.minor
    }

    pub fn patch(&self) -> (r: u64)
        ensures
            r == self@.2,
    {
        self.patch
    }

    /// The pre-release text (empty when there is none).
    pub fn pre(&self) -> (r: &str)
        ensures
            r@ == self@.3,
    {
        self.pre.as_str()
    }

    /// The build metadata text (empty when there is none).
    pub fn build(&self) -> (r: &str)
        ensures
            r@ == self@.4,
    {
        self.build.as_str()
    }

    /// The precedence of `self` relative to `other`.
    pub fn compare(&self, other: &SemVer) -> (r: Precedence)
        ensures
            r == semver_order(self@, other@),
            semver_order(other@, self@) == r.flip(),
            (r == Precedence::Equal) <==> (self@ == other@),
            r != Precedence::Greater ==> forall|c: (u64, u64, u64, Seq<char>, Seq<char>)|
                semver_order(other@, c) != Precedence::Greater ==> #[trigger] semver_order(
                    self@,
                    c,
                ) != Precedence::Greater,
            r != Precedence::Greater ==> forall|c: (u64, u64, u64, Seq<char>, Seq<char>)|
                semver_order(c, self@) != Precedence::Greater ==> #[trigger] semver_order(
                    c,
                    other@,
                ) != Precedence::Greater,
            r == Precedence::Less ==> forall|c: (u64, u64, u64, Seq<char>, Seq<char>)|
                semver_order(other@, c) != Precedence::Greater ==> #[trigger] semver_order(
                    self@,
                    c,
                ) == Precedence::Less,
            r == Precedence::Less ==> forall|c: (u64, u64, u64, Seq<char>, Seq<char>)|
                semver_order(c, self@) != Precedence::Greater ==> #[trigger] semver_order(
                    c,
                    other@,
                ) == Precedence::Less,
    {
        semver_cmp(self, other)
    }

    /// `self >= other` in `semver`'s order.
    pub fn at_least(&self, other: &SemVer) -> (r: bool)
        ensures
            r == (semver_order(self@, other@) != Precedence::Less),
            other@.3.len() == 0 && other@.4.len() == 0 ==> (r <==> at_or_after(
                self@,
                (other@.0, other@.1, other@.2),
            )),
    {
        let p = semver_cmp(self, other);
        proof {
            if self@.3.len() == 0 && other@.3.len() == 0 {
                assert(self@.3 =~= other@.3);
            }
            if self@.4.len() == 0 && other@.4.len() == 0 {
                assert(self@.4 =~= other@.4);
            }
        }
        match p {
            Precedence::Less => false,
            _ => true,
        }
    }

    /// The version as `semver` prints it.
    pub fn to_text(&self) -> (r: String)
        ensures
            r@ == semver_text(self@),
    {
        semver_to_string(self)
    }

    /// A copy of the version.
    pub fn duplicate(&self) -> (r: SemVer)
        ensures
            r@ == self@,
    {
        semver_clone(self)
    }
}

/// Conversion of anything that names a version into a [`SemVer`].
pub trait IntoVersion: Sized {
    /// Converts into a version.
    ///
    /// # Errors
    /// - If the value does not name a valid version.
    fn into_version(self) -> Result<SemVer, semver::Error>;
}

impl<'a> IntoVersion for &'a str {
    fn into_version(self) -> (r: Result<SemVer, semver::Error>)
        ensures
            r is Ok <==> semver_parse(self@) is Some,
            r matches Ok(v) ==> semver_parse(self@) == Some(v@),
    {
        semver_from_str(self)
    }
}

impl IntoVersion for String {
    fn into_version(self) -> (r: Result<SemVer, semver::Error>)
        ensures
            r is Ok <==> semver_parse(self@) is Some,
            r matches Ok(v) ==> semver_parse(self@) == Some(v@),
    {
        semver_from_str(self.as_str())
    }
}

impl IntoVersion for SemVer {
    fn into_version(self) -> (r: Result<SemVer, semver::Error>)
        ensures
            r matches Ok(v) && v@ == self@,
    {
        Ok(self)
    }
}

} // verus!
