//! File names that are not taken yet.
//!
//! A download must not overwrite a file. The candidates for its name are
//! the name itself, then the name with ` (1)` between its stem and its
//! extension, then with ` (2)`, and so on. The caller looks whether a
//! candidate exists and hands the answer to [`after_attempt`], which says
//! what to do next; [`lemma_search_takes_the_first_free`] states what the
//! search arrives at.

use vstd::prelude::*;
use vstd::string::*;

verus! {

/// The position of the last dot of a name, or -1 where it has none.
pub open spec fn last_dot(name: Seq<char>) -> int
    decreases name.len(),
{
    if name.len() == 0 {
        -1
    } else if name.last() == '.' {
        name.len() - 1
    } else {
        last_dot(name.drop_last())
    }
}

/// The stem of a file name: what stands before its last dot, or all of it
/// where there is no dot but a leading one.
pub open spec fn stem_of(name: Seq<char>) -> Seq<char> {
    if last_dot(name) <= 0 {
        name
    } else {
        name.subrange(0, last_dot(name))
    }
}

/// The extension of a file name with the dot before it; empty where the
/// whole name is its stem.
pub open spec fn suffix_of(name: Seq<char>) -> Seq<char> {
    if last_dot(name) <= 0 {
        Seq::empty()
    } else {
        name.subrange(last_dot(name), name.len() as int)
    }
}

/// Whether a path component is the name of a file: it is neither empty
/// nor one of `.` and `..`.
pub open spec fn names_a_file(name: Seq<char>) -> bool {
    name.len() > 0 && name != seq!['.'] && name != seq!['.', '.']
}

/// The character of a decimal digit.
pub open spec fn digit(value: int) -> char {
    if value == 0 {
        '0'
    } else if value == 1 {
        '1'
    } else if value == 2 {
        '2'
    } else if value == 3 {
        '3'
    } else if value == 4 {
        '4'
    } else if value == 5 {
        '5'
    } else if value == 6 {
        '6'
    } else if value == 7 {
        '7'
    } else if value == 8 {
        '8'
    } else {
        '9'
    }
}

/// A number in decimal digits.
pub open spec fn decimal(number: nat) -> Seq<char>
    decreases number,
{
    if number < 10 {
        seq![digit(number as int)]
    } else {
        decimal(number / 10).push(digit((number % 10) as int))
    }
}

/// The name to try at an attempt: the name itself at the first, and at a
/// later one the stem, the attempt's number in brackets after a space, and
/// the extension.
pub open spec fn candidate(name: Seq<char>, number: nat) -> Seq<char> {
    if number == 0 {
        name
    } else {
        stem_of(name) + seq![' ', '('] + decimal(number) + seq![')'] + suffix_of(name)
    }
}

/// The text of a decimal digit.
fn digit_text(value: u32) -> (text: &'static str)
    requires
        value < 10,
    ensures
        text@ == seq![digit(value as int)],
{
    proof {
        reveal_strlit("0");
        reveal_strlit("1");
        reveal_strlit("2");
        reveal_strlit("3");
        reveal_strlit("4");
        reveal_strlit("5");
        reveal_strlit("6");
        reveal_strlit("7");
        reveal_strlit("8");
        reveal_strlit("9");
    }
    let text = if value == 0 {
        "0"
    } else if value == 1 {
        "1"
    } else if value == 2 {
        "2"
    } else if value == 3 {
        "3"
    } else if value == 4 {
        "4"
    } else if value == 5 {
        "5"
    } else if value == 6 {
        "6"
    } else if value == 7 {
        "7"
    } else if value == 8 {
        "8"
    } else {
        "9"
    };
    assert(text@ =~= seq![digit(value as int)]);
    text
}

/// Writes a number in decimal digits.
pub fn decimal_text(number: u32) -> (text: String)
    ensures
        text@ == decimal(number as nat),
    decreases number,
{
    if number < 10 {
        digit_text(number).to_owned()
    } else {
        let mut text = decimal_text(number / 10);
        text.append(digit_text(number % 10));
        assert(text@ =~= decimal(number as nat));
        text
    }
}

/// Where the last dot of a name is, if it has one.
fn find_last_dot(name: &str) -> (dot: Option<usize>)
    ensures
        match dot {
            Some(at) => at == last_dot(name@) && at < name@.len(),
            None => last_dot(name@) == -1,
        },
{
    let n = name.unicode_len();
    let mut dot: Option<usize> = None;
    let mut i: usize = 0;
    assert(name@.take(0) =~= Seq::empty());
    while i < n
        invariant
            i <= n,
            n == name@.len(),
            match dot {
                Some(at) => at == last_dot(name@.take(i as int)) && at < i,
                None => last_dot(name@.take(i as int)) == -1,
            },
        decreases n - i,
    {
        proof {
            assert(name@.take(i + 1).drop_last() =~= name@.take(i as int));
        }
        if name.get_char(i) == '.' {
            dot = Some(i);
        }
        i = i + 1;
    }
    assert(name@.take(n as int) =~= name@);
    dot
}

/// The name to try for a file at an attempt, counted from 0; `None` where
/// `file_name` is not the name of a file.
///
/// `file_name` is the last component of the file's path. Its stem and its
/// extension are those that `Path` gives for it.
pub fn unique_filename(file_name: &str, number: u16) -> (name: Option<String>)
    ensures
        name is Some <==> names_a_file(file_name@),
        name is Some ==> name->0@ == candidate(file_name@, number as nat),
{
    let n = file_name.unicode_len();
    proof {
        if n == 1 {
            assert(file_name@ =~= seq![file_name@[0]]);
        }
        if n == 2 {
            assert(file_name@ =~= seq![file_name@[0], file_name@[1]]);
        }
    }
    if n == 0 || (n == 1 && file_name.get_char(0) == '.') || (n == 2 && file_name.get_char(0) == '.'
        && file_name.get_char(1) == '.') {
        return None;
    }
    if number == 0 {
        return Some(file_name.to_owned());
    }
    let (stem, suffix) = match find_last_dot(file_name) {
        Some(at) => if at == 0 {
            (file_name, file_name.substring_char(0, 0))
        } else {
            (file_name.substring_char(0, at), file_name.substring_char(at, n))
        },
        None => (file_name, file_name.substring_char(0, 0)),
    };
    proof {
        reveal_strlit(" (");
        reveal_strlit(")");
        assert(" ("@ =~= seq![' ', '(']);
        assert(")"@ =~= seq![')']);
        assert(stem@ =~= stem_of(file_name@));
        assert(suffix@ =~= suffix_of(file_name@));
    }
    let mut name = stem.to_owned();
    name.append(" (");
    name.append(decimal_text(number as u32).as_str());
    name.append(")");
    name.append(suffix);
    Some(name)
}

/// What to do after an attempt.
#[derive(Debug, PartialEq, Eq)]
pub enum Step {
    /// The candidate of the attempt is free: use it.
    Use(String),
    /// The candidate is taken: try the attempt with this number.
    Try(u16),
    /// The candidate is taken and the numbers have run out.
    Exhausted,
}

/// The mathematical value of a [`Step`].
pub enum StepModel {
    Use(Seq<char>),
    Try(nat),
    Exhausted,
}

/// What a step stands for.
pub open spec fn step_model(step: Step) -> StepModel {
    match step {
        Step::Use(name) => StepModel::Use(name@),
        Step::Try(number) => StepModel::Try(number as nat),
        Step::Exhausted => StepModel::Exhausted,
    }
}

/// The last number that an attempt can have.
pub open spec fn last_attempt() -> nat {
    0xffff
}

/// The step after an attempt: its candidate where that is free, else the
/// next attempt, as long as there is one.
pub open spec fn next_step(name: Seq<char>, number: nat, taken: bool) -> StepModel {
    if !taken {
        StepModel::Use(candidate(name, number))
    } else if number < last_attempt() {
        StepModel::Try(number + 1)
    } else {
        StepModel::Exhausted
    }
}

/// What to do after the attempt `number` for a file, given whether its
/// candidate is taken; `None` where `file_name` is not the name of a
/// file.
pub fn after_attempt(file_name: &str, number: u16, taken: bool) -> (step: Option<Step>)
    ensures
        step is Some <==> names_a_file(file_name@),
        step is Some ==> step_model(step->0) == next_step(file_name@, number as nat, taken),
{
    match unique_filename(file_name, number) {
        None => None,
        Some(name) => {
            if !taken {
                Some(Step::Use(name))
            } else if number < u16::MAX {
                Some(Step::Try(number + 1))
            } else {
                Some(Step::Exhausted)
            }
        },
    }
}

/// Where the search ends that starts at the attempt `number` and goes
/// from step to step, the names in `taken` being those that exist: at the
/// candidate to use, or at `Exhausted`.
pub open spec fn search(name: Seq<char>, taken: Set<Seq<char>>, number: nat) -> StepModel
    decreases last_attempt() + 1 - number,
{
    match next_step(name, number, taken.contains(candidate(name, number))) {
        StepModel::Try(next) => if number < last_attempt() {
            search(name, taken, next)
        } else {
            StepModel::Exhausted
        },
        StepModel::Use(free) => StepModel::Use(free),
        StepModel::Exhausted => StepModel::Exhausted,
    }
}

/// The search takes the first free candidate. It ends at the candidate
/// of the least attempt, from where it starts, whose candidate is not
/// taken; and at `Exhausted` only where every candidate up to the last is
/// taken.
pub proof fn lemma_search_takes_the_first_free(
    name: Seq<char>,
    taken: Set<Seq<char>>,
    number: nat,
)
    requires
        number <= last_attempt(),
    ensures
        match search(name, taken, number) {
            StepModel::Use(free) => exists|least: nat|
                {
                    &&& number <= least <= last_attempt()
                    &&& free == #[trigger] candidate(name, least)
                    &&& !taken.contains(free)
                    &&& forall|earlier: nat|
                        number <= earlier < least ==> taken.contains(
                            #[trigger] candidate(name, earlier),
                        )
                },
            StepModel::Try(_) => false,
            StepModel::Exhausted => forall|any: nat|
                number <= any <= last_attempt() ==> taken.contains(
                    #[trigger] candidate(name, any),
                ),
        },
    decreases last_attempt() - number,
{
    if !taken.contains(candidate(name, number)) {
        assert(search(name, taken, number) == StepModel::Use(candidate(name, number)));
    } else if number < last_attempt() {
        lemma_search_takes_the_first_free(name, taken, number + 1);
        assert(search(name, taken, number) == search(name, taken, number + 1));
        match search(name, taken, number + 1) {
            StepModel::Use(free) => {
                let least = choose|least: nat|
                    {
                        &&& number + 1 <= least <= last_attempt()
                        &&& free == #[trigger] candidate(name, least)
                        &&& !taken.contains(free)
                        &&& forall|earlier: nat|
                            number + 1 <= earlier < least ==> taken.contains(
                                #[trigger] candidate(name, earlier),
                            )
                    };
                assert forall|earlier: nat| number <= earlier < least implies taken.contains(
                    #[trigger] candidate(name, earlier),
                ) by {}
                assert(number <= least <= last_attempt() && free == candidate(name, least));
            },
            StepModel::Try(_) => {},
            StepModel::Exhausted => {
                assert forall|any: nat| number <= any <= last_attempt() implies taken.contains(
                    #[trigger] candidate(name, any),
                ) by {}
            },
        }
    } else {
        assert forall|any: nat| number <= any <= last_attempt() implies taken.contains(
            #[trigger] candidate(name, any),
        ) by {
            assert(any == number);
        }
    }
}

} // verus!
