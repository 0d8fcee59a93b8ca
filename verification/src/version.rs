//! The version that one run assigns to every package it publishes.

use vstd::prelude::*;

verus! {

/// The numeric part of a semantic version.
#[derive(Clone, Copy, Debug, PartialEq, Eq, Structural)]
pub struct Version {
    pub major: u64,
    pub minor: u64,
    pub patch: u64,
}

/// `a` is not newer than `b`: the order of (major, minor, patch), major first.
pub open spec fn version_le(a: Version, b: Version) -> bool {
    a.major < b.major || (a.major == b.major && (a.minor < b.minor || (a.minor == b.minor
        && a.patch <= b.patch)))
}

/// The version after `current` under the policy of this tool: the next
/// major version, with minor and patch at zero.
pub open spec fn next_version_spec(current: Version) -> Version {
    Version { major: (current.major + 1) as u64, minor: 0, patch: 0 }
}

/// `v` is the newest version of `versions`.
pub open spec fn is_newest(versions: Seq<Version>, v: Version) -> bool {
    &&& versions.contains(v)
    &&& forall|i: int| 0 <= i < versions.len() ==> version_le(#[trigger] versions[i], v)
}

/// The character of the decimal digit `d`.
pub open spec fn digit(d: nat) -> char {
    if d == 0 {
        '0'
    } else if d == 1 {
        '1'
    } else if d == 2 {
        '2'
    } else if d == 3 {
        '3'
    } else if d == 4 {
        '4'
    } else if d == 5 {
        '5'
    } else if d == 6 {
        '6'
    } else if d == 7 {
        '7'
    } else if d == 8 {
        '8'
    } else {
        '9'
    }
}

/// The number `n` in decimal notation: its digits, the first of which is
/// no zero, and the one digit `0` for zero.
pub open spec fn decimal(n: nat) -> Seq<char>
    decreases n,
{
    if n < 10 {
        seq![digit(n)]
    } else {
        decimal(n / 10).push(digit(n % 10))
    }
}

/// A version as text: its three numbers in decimal notation, with a dot
/// between them.
pub open spec fn version_text(major: u64, minor: u64, patch: u64) -> Seq<char> {
    decimal(major as nat) + seq!['.'] + decimal(minor as nat) + seq!['.'] + decimal(patch as nat)
}

impl Version {
    pub fn new(major: u64, minor: u64, patch: u64) -> (v: Version)
        ensures
            v == (Version { major, minor, patch }),
    {
        Version { major, minor, patch }
    }

    /// Whether `self` is not newer than `other`.
    pub fn le(&self, other: &Version) -> (r: bool)
        ensures
            r == version_le(*self, *other),
    {
        self.major < other.major || (self.major == other.major && (self.minor < other.minor || (
        self.minor == other.minor && self.patch <= other.patch)))
    }

    /// The version as text, as it is written into a manifest.
    ///
    /// Trusted: builds a `semver::Version` with `semver::Version::new`,
    /// which leaves pre-release and build metadata empty, and prints it
    /// with its `Display` impl, which then writes the three numbers as
    /// the standard library prints integers, with a dot between them.
    #[verifier::external_body]
    pub(crate) fn render(&self) -> (text: String)
        ensures
            text@ == version_text(self.major, self.minor, self.patch),
    {
        semver::Version::new(self.major, self.minor, self.patch).to_string()
    }

    /// The version as text.
    pub fn to_text(&self) -> (text: String)
        ensures
            text@ == version_text(self.major, self.minor, self.patch),
    {
        self.render()
    }
}

/// The version to publish when `current` is the newest published one.
pub fn next_version(current: Version) -> (next: Version)
    requires
        current.major < u64::MAX,
    ensures
        next == next_version_spec(current),
        next.major == current.major + 1,
        next.minor == 0,
        next.patch == 0,
{
    Version { major: current.major + 1, minor: 0, patch: 0 }
}

/// The newest of `versions`.
pub fn newest(versions: &Vec<Version>) -> (v: Version)
    requires
        versions@.len() > 0,
    ensures
        is_newest(versions@, v),
{
    let mut best: Version = versions[0];
    let mut i: usize = 1;
    while i < versions.len()
        invariant
            1 <= i <= versions@.len(),
            versions@.contains(best),
            forall|j: int| 0 <= j < i ==> version_le(#[trigger] versions@[j], best),
        decreases versions@.len() - i,
    {
        if !versions[i].le(&best) {
            best = versions[i];
        }
        i += 1;
    }
    best
}

/// The version that a run publishes, given the newest published version of
/// each package of the run: the one after the newest of them all.
pub fn get_version_to_publish(currents: &Vec<Version>) -> (next: Version)
    requires
        currents@.len() > 0,
        forall|i: int| 0 <= i < currents@.len() ==> (#[trigger] currents@[i]).major < u64::MAX,
    ensures
        exists|v: Version| is_newest(currents@, v) && next == next_version_spec(v),
        next.minor == 0,
        next.patch == 0,
        forall|i: int| 0 <= i < currents@.len() ==> (#[trigger] currents@[i]).major < next.major,
{
    let cur = newest(currents);
    next_version(cur)
}

/// The version that a run publishes, where there is one: none where no
/// version is given, and none where the newest has the greatest major
/// number there is.
pub fn try_version_to_publish(currents: &Vec<Version>) -> (r: Option<Version>)
    ensures
        match r {
            Some(next) => currents@.len() > 0 && (forall|i: int|
                0 <= i < currents@.len() ==> (#[trigger] currents@[i]).major < u64::MAX) && (exists|
                v: Version,
            |
                is_newest(currents@, v) && next == next_version_spec(v)),
            None => currents@.len() == 0 || exists|i: int|
                0 <= i < currents@.len() && (#[trigger] currents@[i]).major == u64::MAX,
        },
{
    if currents.len() == 0 {
        return None;
    }
    let cur = newest(currents);
    if cur.major == u64::MAX {
        proof {
            let i = choose|i: int| 0 <= i < currents@.len() && currents@[i] == cur;
            assert(currents@[i].major == u64::MAX);
        }
        return None;
    }
    proof {
        assert forall|i: int| 0 <= i < currents@.len() implies (#[trigger] currents@[i]).major
            < u64::MAX by {
            assert(version_le(currents@[i], cur));
        }
    }
    Some(next_version(cur))
}

/// A version of three numbers below ten is written with one digit for
/// each of them.
pub proof fn lemma_version_text_of_digits(major: u64, minor: u64, patch: u64)
    requires
        major < 10,
        minor < 10,
        patch < 10,
    ensures
        version_text(major, minor, patch) == seq![
            digit(major as nat),
            '.',
            digit(minor as nat),
            '.',
            digit(patch as nat),
        ],
{
    assert(version_text(major, minor, patch) =~= seq![
        digit(major as nat),
        '.',
        digit(minor as nat),
        '.',
        digit(patch as nat),
    ]);
}

/// The newest version of a sequence is unique.
pub proof fn lemma_newest_unique(versions: Seq<Version>, a: Version, b: Version)
    requires
        is_newest(versions, a),
        is_newest(versions, b),
    ensures
        a == b,
{
    let i = choose|i: int| 0 <= i < versions.len() && versions[i] == a;
    let j = choose|j: int| 0 <= j < versions.len() && versions[j] == b;
    assert(version_le(versions[i], b));
    assert(version_le(versions[j], a));
}

} // verus!
