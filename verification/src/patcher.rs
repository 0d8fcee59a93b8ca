//! The patch of a package's entry point.

use vstd::prelude::*;
use vstd::string::*;

verus! {

/// The opener of a list of unstable features. It counts only where it
/// starts a line: at the start of the text or right behind a line break.
pub open spec fn feature_opener() -> Seq<char> {
    "#![feature("@
}

/// The feature that is put first into the list.
pub open spec fn injected_feature() -> Seq<char> {
    "rustc_private, "@
}

/// The start of the macro call that registers diagnostics.
pub open spec fn diagnostics_macro() -> Seq<char> {
    "__build_diagnostic_array! {"@
}

/// The definition that takes the place of the macro call and of all that follows it.
pub open spec fn placeholder() -> Seq<char> {
    "fn _foo() {}\n"@
}

/// `needle` stands in `text` at position `i`.
pub open spec fn occurs_at(text: Seq<char>, needle: Seq<char>, i: int) -> bool {
    0 <= i && i + needle.len() <= text.len() && text.subrange(i, i + needle.len()) == needle
}

/// `needle` stands somewhere in `text`.
pub open spec fn occurs(text: Seq<char>, needle: Seq<char>) -> bool {
    exists|i: int| occurs_at(text, needle, i)
}

/// `needle` stands in `text` at position `i` and nowhere before.
pub open spec fn is_first_occurrence(text: Seq<char>, needle: Seq<char>, i: int) -> bool {
    occurs_at(text, needle, i) && forall|j: int| 0 <= j < i ==> !occurs_at(text, needle, j)
}

/// The first position at which `needle` stands in `text`, where it occurs.
pub open spec fn first_occurrence(text: Seq<char>, needle: Seq<char>) -> int {
    choose|i: int| is_first_occurrence(text, needle, i)
}

/// A line of `text` starts at position `i`: the text starts there, or
/// the character before is a line break.
pub open spec fn line_starts_at(text: Seq<char>, i: int) -> bool {
    i == 0 || (0 < i <= text.len() && text[i - 1] == '\n')
}

/// The opener of a feature list stands at position `i`, at the start of a line.
pub open spec fn opens_at(text: Seq<char>, i: int) -> bool {
    occurs_at(text, feature_opener(), i) && line_starts_at(text, i)
}

/// Some line of `text` starts with the opener of a feature list.
pub open spec fn has_opener(text: Seq<char>) -> bool {
    exists|i: int| opens_at(text, i)
}

/// The opener stands at the start of a line at position `i`, and at the
/// start of no line before.
pub open spec fn is_first_opener(text: Seq<char>, i: int) -> bool {
    opens_at(text, i) && forall|j: int| 0 <= j < i ==> !opens_at(text, j)
}

/// The position of the first opener that starts a line, where there is one.
pub open spec fn first_opener(text: Seq<char>) -> int {
    choose|i: int| is_first_opener(text, i)
}

/// `text` with the injected feature right behind the first opener that
/// starts a line; `text` itself where no line starts with an opener.
pub open spec fn with_feature(text: Seq<char>) -> Seq<char> {
    if has_opener(text) {
        let at = first_opener(text) + feature_opener().len();
        text.subrange(0, at) + injected_feature() + text.subrange(at, text.len() as int)
    } else {
        text
    }
}

/// `text` up to the first call of the diagnostics macro, then the
/// placeholder; `text` itself where there is no such call.
pub open spec fn without_diagnostics(text: Seq<char>) -> Seq<char> {
    if occurs(text, diagnostics_macro()) {
        text.subrange(0, first_occurrence(text, diagnostics_macro())) + placeholder()
    } else {
        text
    }
}

/// The patched entry point: first the feature, then the macro.
pub open spec fn patch_spec(text: Seq<char>) -> Seq<char> {
    without_diagnostics(with_feature(text))
}

/// A text has one first occurrence of a needle at most.
pub proof fn lemma_first_occurrence(text: Seq<char>, needle: Seq<char>, i: int)
    requires
        is_first_occurrence(text, needle, i),
    ensures
        occurs(text, needle),
        first_occurrence(text, needle) == i,
{
    let j = first_occurrence(text, needle);
    assert(is_first_occurrence(text, needle, j));
    if j < i {
        assert(!occurs_at(text, needle, j));
    }
    if i < j {
        assert(!occurs_at(text, needle, i));
    }
}

/// A text has one first opener at most.
pub proof fn lemma_first_opener(text: Seq<char>, i: int)
    requires
        is_first_opener(text, i),
    ensures
        has_opener(text),
        first_opener(text) == i,
{
    let j = first_opener(text);
    assert(is_first_opener(text, j));
    if j < i {
        assert(!opens_at(text, j));
    }
    if i < j {
        assert(!opens_at(text, i));
    }
}

/// Where a line starts with an opener, there is a first such line.
pub proof fn lemma_least_opener(text: Seq<char>, i: int)
    requires
        opens_at(text, i),
    ensures
        exists|f: int| is_first_opener(text, f),
    decreases i,
{
    if exists|j: int| 0 <= j < i && opens_at(text, j) {
        let j = choose|j: int| 0 <= j < i && opens_at(text, j);
        lemma_least_opener(text, j);
    } else {
        assert(is_first_opener(text, i));
    }
}

/// A text that begins with the opener gets the feature right behind that
/// opener: the first line is a line like the others.
pub proof fn lemma_opener_on_the_first_line(text: Seq<char>)
    requires
        occurs_at(text, feature_opener(), 0),
    ensures
        with_feature(text) == feature_opener() + injected_feature() + text.subrange(
            feature_opener().len() as int,
            text.len() as int,
        ),
{
    assert(is_first_opener(text, 0));
    lemma_first_opener(text, 0);
}

/// A text without the two patterns is its own patch.
pub proof fn lemma_patch_without_patterns(text: Seq<char>)
    requires
        !has_opener(text),
        !occurs(text, diagnostics_macro()),
    ensures
        patch_spec(text) == text,
{
}

/// Putting the feature in changes nothing before the end of the opener and
/// nothing behind it: the text behind it only moves.
pub proof fn lemma_with_feature_keeps_the_rest(text: Seq<char>)
    requires
        has_opener(text),
    ensures
        ({
            let at = first_opener(text) + feature_opener().len();
            let patched = with_feature(text);
            &&& 0 <= at <= text.len()
            &&& patched.len() == text.len() + injected_feature().len()
            &&& patched.subrange(0, at) == text.subrange(0, at)
            &&& patched.subrange(at, at + injected_feature().len()) == injected_feature()
            &&& patched.subrange(at + injected_feature().len(), patched.len() as int)
                == text.subrange(at, text.len() as int)
        }),
{
    let i = choose|i: int| opens_at(text, i);
    lemma_least_opener(text, i);
    let f = first_opener(text);
    assert(is_first_opener(text, f));
    let at = f + feature_opener().len();
    let patched = with_feature(text);
    assert(patched.subrange(0, at) =~= text.subrange(0, at));
    assert(patched.subrange(at, at + injected_feature().len()) =~= injected_feature());
    assert(patched.subrange(at + injected_feature().len(), patched.len() as int)
        =~= text.subrange(at, text.len() as int));
}

/// Where a needle occurs, it has a first occurrence.
pub proof fn lemma_least_occurrence(text: Seq<char>, needle: Seq<char>, i: int)
    requires
        occurs_at(text, needle, i),
    ensures
        exists|f: int| is_first_occurrence(text, needle, f),
    decreases i,
{
    if exists|j: int| 0 <= j < i && occurs_at(text, needle, j) {
        let j = choose|j: int| 0 <= j < i && occurs_at(text, needle, j);
        lemma_least_occurrence(text, needle, j);
    } else {
        assert(is_first_occurrence(text, needle, i));
    }
}

/// Taking the macro call out keeps the text before it and ends in the placeholder.
pub proof fn lemma_without_diagnostics_keeps_the_start(text: Seq<char>)
    requires
        occurs(text, diagnostics_macro()),
    ensures
        ({
            let at = first_occurrence(text, diagnostics_macro());
            let patched = without_diagnostics(text);
            &&& 0 <= at <= text.len()
            &&& patched.len() == at + placeholder().len()
            &&& patched.subrange(0, at) == text.subrange(0, at)
            &&& patched.subrange(at, patched.len() as int) == placeholder()
        }),
{
    let i = choose|i: int| occurs_at(text, diagnostics_macro(), i);
    lemma_least_occurrence(text, diagnostics_macro(), i);
    let at = first_occurrence(text, diagnostics_macro());
    assert(is_first_occurrence(text, diagnostics_macro(), at));
    let patched = without_diagnostics(text);
    assert(patched.subrange(0, at) =~= text.subrange(0, at));
    assert(patched.subrange(at, patched.len() as int) =~= placeholder());
}

/// The characters of a text.
pub fn chars_of(text: &str) -> (r: Vec<char>)
    ensures
        r@ == text@,
{
    broadcast use vstd::string::group_string_axioms;

    let mut out: Vec<char> = Vec::new();
    for c in it: text.chars()
        invariant
            it.seq() == text@,
            out@.len() == it.index(),
            forall|j: int| 0 <= j < out@.len() ==> out@[j] == it.seq()[j],
    {
        out.push(c);
    }
    assert(out@ =~= text@);
    out
}

/// Whether `needle` stands in `text` at position `i`.
pub fn matches_at(text: &Vec<char>, needle: &Vec<char>, i: usize) -> (r: bool)
    requires
        i + needle@.len() <= text@.len(),
    ensures
        r == occurs_at(text@, needle@, i as int),
{
    let n: usize = text.len();
    let mut k: usize = 0;
    while k < needle.len()
        invariant
            n == text@.len(),
            k <= needle@.len(),
            i + needle@.len() <= text@.len(),
            forall|t: int| 0 <= t < k ==> text@[i + t] == needle@[t],
        decreases needle@.len() - k,
    {
        if text[i + k] != needle[k] {
            assert(text@.subrange(i as int, i + needle@.len())[k as int] != needle@[k as int]);
            return false;
        }
        k += 1;
    }
    assert(text@.subrange(i as int, i + needle@.len()) =~= needle@);
    true
}

/// The first position at which `needle` stands in `text`.
pub fn find(text: &Vec<char>, needle: &Vec<char>) -> (r: Option<usize>)
    ensures
        match r {
            Some(i) => is_first_occurrence(text@, needle@, i as int),
            None => !occurs(text@, needle@),
        },
{
    if needle.len() > text.len() {
        return None;
    }
    let last: usize = text.len() - needle.len();
    let mut i: usize = 0;
    while i < last
        invariant
            i <= last,
            last == text@.len() - needle@.len(),
            forall|j: int| 0 <= j < i ==> !occurs_at(text@, needle@, j),
        decreases last - i,
    {
        if matches_at(text, needle, i) {
            return Some(i);
        }
        i += 1;
    }
    if matches_at(text, needle, last) {
        Some(last)
    } else {
        None
    }
}

/// Whether the opener of a feature list stands in `text` at position
/// `i`, at the start of a line.
pub fn opener_at(text: &Vec<char>, opener: &Vec<char>, i: usize) -> (r: bool)
    requires
        opener@ == feature_opener(),
        i + opener@.len() <= text@.len(),
    ensures
        r == opens_at(text@, i as int),
{
    if i > 0 && text[i - 1] != '\n' {
        return false;
    }
    matches_at(text, opener, i)
}

/// The position of the first opener of a feature list that starts a line of `text`.
pub fn find_opener(text: &Vec<char>) -> (r: Option<usize>)
    ensures
        match r {
            Some(i) => is_first_opener(text@, i as int),
            None => !has_opener(text@),
        },
{
    let opener = chars_of("#![feature(");
    if opener.len() > text.len() {
        return None;
    }
    let last: usize = text.len() - opener.len();
    let mut i: usize = 0;
    while i < last
        invariant
            opener@ == feature_opener(),
            i <= last,
            last == text@.len() - opener@.len(),
            forall|j: int| 0 <= j < i ==> !opens_at(text@, j),
        decreases last - i,
    {
        if opener_at(text, &opener, i) {
            return Some(i);
        }
        i += 1;
    }
    if opener_at(text, &opener, last) {
        Some(last)
    } else {
        None
    }
}

/// Puts the injected feature into the first list of unstable features
/// whose opener starts a line.
pub fn inject_feature(text: &str) -> (r: String)
    ensures
        r@ == with_feature(text@),
{
    let chars = chars_of(text);
    let needle = chars_of("#![feature(");
    match find_opener(&chars) {
        None => String::from_str(text),
        Some(i) => {
            proof {
                lemma_first_opener(text@, i as int);
            }
            let n: usize = chars.len();
            let at: usize = i + needle.len();
            String::from_str(text.substring_char(0, at)).concat("rustc_private, ").concat(
                text.substring_char(at, n),
            )
        },
    }
}

/// Cuts the text at the first call of the diagnostics macro and ends it
/// with the placeholder.
pub fn strip_diagnostics(text: &str) -> (r: String)
    ensures
        r@ == without_diagnostics(text@),
{
    let chars = chars_of(text);
    let needle = chars_of("__build_diagnostic_array! {");
    match find(&chars, &needle) {
        None => String::from_str(text),
        Some(i) => {
            proof {
                lemma_first_occurrence(text@, diagnostics_macro(), i as int);
            }
            String::from_str(text.substring_char(0, i)).concat("fn _foo() {}\n")
        },
    }
}

/// Patches the text of a package's entry point so that it builds outside
/// its tree.
pub fn alter_lib_rs(contents: &str) -> (r: String)
    ensures
        r@ == patch_spec(contents@),
        !has_opener(contents@) && !occurs(contents@, diagnostics_macro()) ==> r@ == contents@,
{
    let with = inject_feature(contents);
    strip_diagnostics(with.as_str())
}

} // verus!
