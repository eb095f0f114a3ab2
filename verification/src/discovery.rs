//! Where fans and sensors are found, and how their files are named.

use crate::error::Error;
use nonempty::NonEmpty;
use vstd::prelude::*;

verus! {

/// A list of the `nonempty` crate that has at least one item.
#[verifier::external_type_specification]
#[verifier::external_body]
#[verifier::reject_recursive_types(T)]
pub struct ExNonEmpty<T>(nonempty::NonEmpty<T>);

/// The paths that a list holds, in order.
pub uninterp spec fn listed(paths: NonEmpty<String>) -> Seq<String>;

/// `NonEmpty::collect` makes a list of the same items in the same order, or `None`
/// if there are none.
#[verifier::external_body]
fn collect_paths(paths: Vec<String>) -> (r: Option<NonEmpty<String>>)
    ensures
        r is None <==> paths.len() == 0,
        r matches Some(list) ==> listed(list) == paths@,
{
    NonEmpty::collect(paths)
}

/// What the files of the fans match.
pub const FAN_PATTERN: &'static str = "/sys/devices/pci*/*/*/*/APP0001:00/fan*";

/// What the processor's temperature sensors match.
pub const CPU_PATTERN: &'static str = "/sys/devices/platform/coretemp.0/hwmon/hwmon*/temp1_input";

/// What the graphics card's temperature sensors match.
pub const GPU_PATTERN: &'static str = "/sys/class/drm/card0/device/hwmon/hwmon*/temp1_input";

/// What ends the path of the file with a fan's speed.
pub const INPUT_SUFFIX: &'static str = "_input";

/// The files by which a fan is read and driven.
#[derive(Clone, Copy, Debug, PartialEq, Eq, Structural)]
pub enum FanFile {
    /// The lowest speed.
    Min,
    /// The highest speed.
    Max,
    /// The switch for manual control.
    Manual,
    /// The speed to run at.
    Output,
}

impl FanFile {
    /// What the file's name adds to the name of the fan.
    pub open spec fn suffix(self) -> Seq<char> {
        match self {
            FanFile::Min => "_min"@,
            FanFile::Max => "_max"@,
            FanFile::Manual => "_manual"@,
            FanFile::Output => "_output"@,
        }
    }
}

/// The name of one of a fan's files.
pub fn fan_file_name(fan_name: &str, file: FanFile) -> (name: String)
    ensures
        name@ == fan_name@ + file.suffix(),
        file == FanFile::Min ==> name@ == fan_name@ + "_min"@,
        file == FanFile::Max ==> name@ == fan_name@ + "_max"@,
        file == FanFile::Manual ==> name@ == fan_name@ + "_manual"@,
        file == FanFile::Output ==> name@ == fan_name@ + "_output"@,
{
    let mut name: String = fan_name.to_owned();
    name.append(
        match file {
            FanFile::Min => "_min",
            FanFile::Max => "_max",
            FanFile::Manual => "_manual",
            FanFile::Output => "_output",
        },
    );
    name
}

/// What the speed files of the fans in a directory match.
pub fn fan_input_pattern(directory: &str) -> (pattern: String)
    ensures
        pattern@ == directory@ + "/fan*_input"@,
{
    let mut pattern: String = directory.to_owned();
    pattern.append("/fan*_input");
    pattern
}

/// The text without the given end, if it has that end.
pub open spec fn without_suffix(s: Seq<char>, suffix: Seq<char>) -> Option<Seq<char>> {
    let n = s.len() - suffix.len();
    if n >= 0 && s.skip(n) == suffix {
        Some(s.take(n))
    } else {
        None
    }
}

/// The paths of the fans, from the paths of their speed files; a path that is not
/// that of a speed file is left out.
pub open spec fn fan_paths(inputs: Seq<String>) -> Seq<Seq<char>>
    decreases inputs.len(),
{
    if inputs.len() == 0 {
        Seq::empty()
    } else {
        let before = fan_paths(inputs.drop_last());
        match without_suffix(inputs.last()@, INPUT_SUFFIX@) {
            Some(path) => before.push(path),
            None => before,
        }
    }
}

/// The texts that a sequence of strings holds.
pub open spec fn texts(s: Seq<String>) -> Seq<Seq<char>> {
    s.map_values(|t: String| t@)
}

/// Takes the given end off a text.
fn strip_suffix(s: &str, suffix: &str) -> (r: Option<String>)
    ensures
        match without_suffix(s@, suffix@) {
            Some(text) => r matches Some(t) && t@ == text,
            None => r is None,
        },
{
    let len: usize = s.unicode_len();
    let suffix_len: usize = suffix.unicode_len();
    if len < suffix_len {
        return None;
    }
    let n: usize = len - suffix_len;
    let mut i: usize = 0;
    while i < suffix_len
        invariant
            i <= suffix_len == suffix@.len(),
            n + suffix_len == len == s@.len(),
            forall|j: int| 0 <= j < i ==> s@[n + j] == #[trigger] suffix@[j],
        decreases suffix_len - i,
    {
        if s.get_char(n + i) != suffix.get_char(i) {
            assert(s@.skip(n as int)[i as int] != suffix@[i as int]);
            return None;
        }
        i = i + 1;
    }
    assert(s@.skip(n as int) == suffix@);
    Some(s.substring_char(0, n).to_owned())
}

/// The paths of the fans, from the paths of their speed files in the order in which
/// they were found. There must be a fan.
pub fn find_fan_paths(inputs: &Vec<String>) -> (r: Result<NonEmpty<String>, Error>)
    ensures
        match r {
            Ok(list) => fan_paths(inputs@).len() > 0 && texts(listed(list)) == fan_paths(inputs@),
            Err(e) => fan_paths(inputs@).len() == 0 && e == Error::NoFan,
        },
        ({
            let fans = inputs@.filter_map(
                |input: String|
                    {
                        let n = input@.len() - 6;
                        if n >= 0 && input@.skip(n) == seq!['_', 'i', 'n', 'p', 'u', 't'] {
                            Some(input@.take(n))
                        } else {
                            None
                        }
                    },
            );
            match r {
                Ok(list) => fans.len() > 0 && listed(list).map_values(|path: String| path@) == fans,
                Err(e) => fans.len() == 0 && e == Error::NoFan,
            }
        }),
{
    proof {
        law_fan_paths_are_the_inputs(inputs@);
    }
    let mut paths: Vec<String> = Vec::new();
    let mut i: usize = 0;
    while i < inputs.len()
        invariant
            i <= inputs.len(),
            texts(paths@) == fan_paths(inputs@.take(i as int)),
        decreases inputs.len() - i,
    {
        assert(inputs@.take(i + 1).drop_last() == inputs@.take(i as int));
        match strip_suffix(inputs[i].as_str(), INPUT_SUFFIX) {
            Some(path) => {
                assert(texts(paths@.push(path)) == texts(paths@).push(path@));
                paths.push(path);
            },
            None => {},
        }
        i = i + 1;
    }
    assert(inputs@.take(i as int) == inputs@);
    match collect_paths(paths) {
        Some(list) => Ok(list),
        None => Err(Error::NoFan),
    }
}

/// There is a fan exactly if one of the paths ends as that of a speed file does, and
/// every fan's path is then one of these without that end.
pub proof fn law_fan_paths(inputs: Seq<String>)
    ensures
        fan_paths(inputs).len() > 0 <==> exists|i: int|
            0 <= i < inputs.len() && without_suffix(#[trigger] inputs[i]@, INPUT_SUFFIX@) is Some,
        fan_paths(inputs).len() <= inputs.len(),
        forall|k: int|
            0 <= k < fan_paths(inputs).len() ==> exists|i: int|
                0 <= i < inputs.len() && #[trigger] inputs[i]@ == #[trigger] fan_paths(inputs)[k]
                    + INPUT_SUFFIX@,
    decreases inputs.len(),
{
    if inputs.len() > 0 {
        let init = inputs.drop_last();
        let last = inputs.len() - 1;
        law_fan_paths(init);
        assert forall|i: int| 0 <= i < last implies #[trigger] inputs[i] == init[i] by {}
        if fan_paths(init).len() > 0 {
            let i = choose|i: int|
                0 <= i < init.len() && without_suffix(#[trigger] init[i]@, INPUT_SUFFIX@) is Some;
            assert(inputs[i] == init[i]);
        }
        assert(inputs[last] == inputs.last());
        assert forall|k: int| 0 <= k < fan_paths(inputs).len() implies exists|i: int|
            0 <= i < inputs.len() && #[trigger] inputs[i]@ == #[trigger] fan_paths(inputs)[k]
                + INPUT_SUFFIX@ by {
            if k < fan_paths(init).len() {
                let i = choose|i: int|
                    0 <= i < init.len() && #[trigger] init[i]@ == fan_paths(init)[k]
                        + INPUT_SUFFIX@;
                assert(inputs[i]@ == fan_paths(inputs)[k] + INPUT_SUFFIX@);
            } else {
                let s = inputs[last]@;
                assert(s == fan_paths(inputs)[k] + INPUT_SUFFIX@);
            }
        }
    }
}

/// Every path that ends in `_input` gives a fan and no other does: the paths of the
/// fans are these paths without that end, in the same order.
pub proof fn law_fan_paths_are_the_inputs(inputs: Seq<String>)
    ensures
        fan_paths(inputs) == inputs.filter_map(
            |input: String|
                {
                    let n = input@.len() - 6;
                    if n >= 0 && input@.skip(n) == seq!['_', 'i', 'n', 'p', 'u', 't'] {
                        Some(input@.take(n))
                    } else {
                        None
                    }
                },
        ),
    decreases inputs.len(),
{
    lemma_input_suffix();
    if inputs.len() > 0 {
        law_fan_paths_are_the_inputs(inputs.drop_last());
    }
}

proof fn lemma_input_suffix()
    ensures
        INPUT_SUFFIX@ == seq!['_', 'i', 'n', 'p', 'u', 't'],
{
    reveal_strlit("_input");
}

/// How the fans grow with the paths: one more path at the end adds the fan whose path
/// it is the speed file of, and adds nothing if it is none's.
pub proof fn law_fan_paths_push(inputs: Seq<String>, fan: Seq<char>, input: String)
    ensures
        input@ == fan + seq!['_', 'i', 'n', 'p', 'u', 't'] ==> fan_paths(inputs.push(input))
            == fan_paths(inputs).push(fan),
        input@.len() < 6 || input@.skip(input@.len() - 6) != seq!['_', 'i', 'n', 'p', 'u', 't']
            ==> fan_paths(inputs.push(input)) == fan_paths(inputs),
{
    lemma_input_suffix();
    assert(inputs.push(input).drop_last() == inputs);
    if input@ == fan + seq!['_', 'i', 'n', 'p', 'u', 't'] {
        assert(input@.skip(fan.len() as int) == seq!['_', 'i', 'n', 'p', 'u', 't']);
        assert(input@.take(fan.len() as int) == fan);
    }
}

} // verus!
