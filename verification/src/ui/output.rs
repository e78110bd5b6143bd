use vstd::prelude::*;

verus! {

/// The texts of `values` one behind the other, with `separator` between
/// two of them, from the `from`-th on.
pub open spec fn separated(values: Seq<Seq<char>>, separator: Seq<char>, from: int) -> Seq<char>
    decreases values.len() - from,
{
    if from < 0 || from >= values.len() {
        Seq::empty()
    } else if from == values.len() - 1 {
        values[from]
    } else {
        values[from] + separator + separated(values, separator, from + 1)
    }
}

/// The characters of the texts, text by text.
pub open spec fn texts(values: Seq<Vec<char>>) -> Seq<Seq<char>> {
    Seq::new(values.len(), |i: int| values[i]@)
}

/// The texts of `values` one behind the other, with `separator` between two
/// of them.
pub fn format_separated_values(values: &[Vec<char>], separator: &[char]) -> (text: Vec<char>)
    ensures
        text@ == separated(texts(values@), separator@, 0),
{
    let mut text: Vec<char> = Vec::new();
    let ghost all = texts(values@);
    let mut i: usize = 0;
    while i < values.len()
        invariant
            i <= values@.len(),
            all == texts(values@),
            text@ + separated(all, separator@, i as int) == separated(all, separator@, 0),
        decreases values@.len() - i,
    {
        let ghost before = text@;
        let value = &values[i];
        let mut k: usize = 0;
        while k < value.len()
            invariant
                k <= value@.len(),
                text@ == before + value@.take(k as int),
            decreases value@.len() - k,
        {
            text.push(value[k]);
            proof {
                assert(value@.take(k + 1) =~= value@.take(k as int).push(value@[k as int]));
                assert(text@ =~= before + value@.take(k + 1));
            }
            k += 1;
        }
        proof {
            assert(value@.take(value@.len() as int) =~= value@);
            assert(all[i as int] == value@);
        }
        if i + 1 < values.len() {
            let ghost with_value = text@;
            let mut k: usize = 0;
            while k < separator.len()
                invariant
                    k <= separator@.len(),
                    text@ == with_value + separator@.take(k as int),
                decreases separator@.len() - k,
            {
                text.push(separator[k]);
                proof {
                    assert(separator@.take(k + 1) =~= separator@.take(k as int).push(
                        separator@[k as int],
                    ));
                    assert(text@ =~= with_value + separator@.take(k + 1));
                }
                k += 1;
            }
            proof {
                assert(separator@.take(separator@.len() as int) =~= separator@);
                assert(text@ + separated(all, separator@, i + 1) =~= before + separated(
                    all,
                    separator@,
                    i as int,
                ));
            }
        } else {
            proof {
                assert(text@ + separated(all, separator@, i + 1) =~= before + separated(
                    all,
                    separator@,
                    i as int,
                ));
            }
        }
        i += 1;
    }
    proof {
        assert(text@ + Seq::<char>::empty() =~= text@);
    }
    text
}

/// The help that is shown for an operation.
#[derive(Debug, Clone, Copy, PartialEq, Eq, Structural)]
pub enum HelpTopic {
    /// How the program is used.
    Basic,
    /// How the operation `showdown` is used.
    Showdown,
    /// The operation is not known; how the program is used.
    Unrecognized,
}

/// The help for `operation`: how the program is used where none is named or
/// where it is `--help`; how a showdown is given for `showdown`; and for any
/// other operation that it is not known.
pub open spec fn topic_of(operation: Option<Seq<char>>) -> HelpTopic {
    match operation {
        None => HelpTopic::Basic,
        Some(name) => if name == seq!['-', '-', 'h', 'e', 'l', 'p'] {
            HelpTopic::Basic
        } else if name == seq!['s', 'h', 'o', 'w', 'd', 'o', 'w', 'n'] {
            HelpTopic::Showdown
        } else {
            HelpTopic::Unrecognized
        },
    }
}

/// Whether two slices hold the same characters.
fn same_text(a: &[char], b: &[char]) -> (same: bool)
    ensures
        same == (a@ == b@),
{
    if a.len() != b.len() {
        return false;
    }
    let mut i: usize = 0;
    while i < a.len()
        invariant
            i <= a@.len(),
            a@.len() == b@.len(),
            forall|k: int| 0 <= k < i ==> a@[k] == b@[k],
        decreases a@.len() - i,
    {
        if a[i] != b[i] {
            return false;
        }
        i += 1;
    }
    proof {
        assert(a@ =~= b@);
    }
    true
}

/// The help that is shown for `operation`.
pub fn help_topic(operation: Option<&[char]>) -> (topic: HelpTopic)
    ensures
        topic == topic_of(
            match operation {
                Some(name) => Some(name@),
                None => None,
            },
        ),
{
    match operation {
        None => HelpTopic::Basic,
        Some(name) => {
            let help = ['-', '-', 'h', 'e', 'l', 'p'];
            let showdown = ['s', 'h', 'o', 'w', 'd', 'o', 'w', 'n'];
            proof {
                assert(help@ =~= seq!['-', '-', 'h', 'e', 'l', 'p']);
                assert(showdown@ =~= seq!['s', 'h', 'o', 'w', 'd', 'o', 'w', 'n']);
            }
            if same_text(name, help.as_slice()) {
                HelpTopic::Basic
            } else if same_text(name, showdown.as_slice()) {
                HelpTopic::Showdown
            } else {
                HelpTopic::Unrecognized
            }
        },
    }
}

} // verus!
