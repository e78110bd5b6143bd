use vstd::prelude::*;

verus! {

/// The characters of a command line that have not been read yet.
pub struct ArgStream {
    chars: Vec<char>,
    position: usize,
}

/// Whether a character is taken out of the stream or only looked at.
#[derive(Debug, Clone, Copy, PartialEq, Eq, Structural)]
pub enum TakeMode {
    Consume,
    Peek,
}

/// The characters of the arguments from the `i`-th on, with one space
/// between two arguments.
pub open spec fn joined(args: Seq<Seq<char>>, i: int) -> Seq<char>
    decreases args.len() - i,
{
    if i < 0 || i >= args.len() {
        Seq::empty()
    } else if i == args.len() - 1 {
        args[i]
    } else {
        args[i] + seq![' '] + joined(args, i + 1)
    }
}

/// The characters of the arguments, argument by argument.
pub open spec fn arg_chars(args: Seq<Vec<char>>) -> Seq<Seq<char>> {
    Seq::new(args.len(), |i: int| args[i]@)
}

/// `parser` can give `outcome` for the characters of `input`.
pub open spec fn parses<T, F: Fn(&[char]) -> Option<(T, usize)>>(
    parser: F,
    input: Seq<char>,
    outcome: Option<(T, usize)>,
) -> bool {
    exists|slice: &[char]| slice@ == input && #[trigger] call_ensures(parser, (slice,), outcome)
}

/// `parser` can find `found` in the characters of `input` and read `count`
/// of them, which leaves `left`.
pub open spec fn took<T, F: Fn(&[char]) -> Option<(T, usize)>>(
    parser: F,
    input: Seq<char>,
    found: T,
    count: usize,
    left: Seq<char>,
) -> bool {
    &&& parses(parser, input, Some((found, count)))
    &&& count <= input.len()
    &&& left == input.skip(count as int)
}

impl ArgStream {
    #[verifier::type_invariant]
    spec fn type_inv(self) -> bool {
        self.position <= self.chars@.len()
    }

    /// The characters that have not been read yet.
    pub closed spec fn remaining(self) -> Seq<char> {
        self.chars@.skip(self.position as int)
    }

    /// A stream of the characters of `chars`.
    pub fn new(chars: Vec<char>) -> (stream: ArgStream)
        ensures
            stream.remaining() == chars@,
    {
        let stream = ArgStream { chars, position: 0 };
        proof {
            assert(stream.remaining() =~= chars@);
        }
        stream
    }

    /// A stream of the characters of the arguments from the `from`-th on,
    /// with one space between two arguments.
    pub fn from_args(args: &Vec<Vec<char>>, from: usize) -> (stream: ArgStream)
        ensures
            stream.remaining() == joined(arg_chars(args@), from as int),
    {
        let mut chars: Vec<char> = Vec::new();
        let ghost all = arg_chars(args@);
        let mut i: usize = from;
        if from >= args.len() {
            return ArgStream::new(chars);
        }
        while i < args.len()
            invariant
                from <= i <= args@.len(),
                from < args@.len(),
                all == arg_chars(args@),
                chars@ + joined(all, i as int) == joined(all, from as int) || (i == args@.len()
                    && chars@ == joined(all, from as int)),
                i < args@.len() ==> chars@ + joined(all, i as int) == joined(all, from as int),
            decreases args@.len() - i,
        {
            let arg = &args[i];
            let ghost before = chars@;
            let mut k: usize = 0;
            while k < arg.len()
                invariant
                    k <= arg@.len(),
                    chars@ == before + arg@.take(k as int),
                decreases arg@.len() - k,
            {
                chars.push(arg[k]);
                proof {
                    assert(arg@.take(k + 1) =~= arg@.take(k as int).push(arg@[k as int]));
                    assert(chars@ =~= before + arg@.take(k + 1));
                }
                k += 1;
            }
            proof {
                assert(arg@.take(arg@.len() as int) =~= arg@);
                assert(all[i as int] == arg@);
            }
            if i + 1 < args.len() {
                chars.push(' ');
                proof {
                    assert(chars@ =~= before + (arg@ + seq![' ']));
                    assert(chars@ + joined(all, i + 1) =~= before + joined(all, i as int));
                }
            } else {
                proof {
                    assert(before + joined(all, i as int) =~= chars@);
                }
            }
            i += 1;
        }
        ArgStream::new(chars)
    }

    /// Whether every character has been read.
    pub fn is_empty(&self) -> (empty: bool)
        ensures
            empty == (self.remaining().len() == 0),
    {
        proof {
            use_type_invariant(self);
        }
        self.position >= self.chars.len()
    }

    /// The characters that have not been read yet.
    pub fn rest(&self) -> (rest: &[char])
        ensures
            rest@ == self.remaining(),
    {
        proof {
            use_type_invariant(self);
        }
        vstd::slice::slice_subrange(self.chars.as_slice(), self.position, self.chars.len())
    }

    /// Reads `count` characters.
    pub fn advance(&mut self, count: usize)
        requires
            count <= old(self).remaining().len(),
        ensures
            final(self).remaining() == old(self).remaining().skip(count as int),
    {
        proof {
            use_type_invariant(&*self);
        }
        let ghost before = *self;
        let total = self.chars.len();
        proof {
            assert(self.remaining().len() == total - self.position);
        }
        let position = self.position + count;
        proof {
            assert(self.chars@.skip(position as int) =~= before.remaining().skip(count as int));
        }
        self.position = position;
    }

    /// The next character, which `Consume` reads and `Peek` leaves where it
    /// is; nothing at the end of the stream.
    pub fn take(&mut self, mode: TakeMode) -> (next: Option<char>)
        ensures
            old(self).remaining().len() == 0 ==> next is None && final(self).remaining() == old(self).remaining(),
            old(self).remaining().len() > 0 ==> next == Some(old(self).remaining()[0]),
            old(self).remaining().len() > 0 && mode == TakeMode::Consume ==> final(self).remaining() == old(self).remaining().drop_first(),
            mode == TakeMode::Peek ==> final(self).remaining() == old(self).remaining(),
    {
        proof {
            use_type_invariant(&*self);
        }
        if self.position >= self.chars.len() {
            return None;
        }
        let next = self.chars[self.position];
        match mode {
            TakeMode::Consume => {
                let ghost before = *self;
                let position = self.position + 1;
                proof {
                    assert(self.chars@.skip(position as int) =~= before.remaining().drop_first());
                }
                self.position = position;
            },
            TakeMode::Peek => {},
        }
        Some(next)
    }

    /// Lets `parser` read from the stream: where it finds a value, the
    /// characters that it says it read are taken out of the stream; where it
    /// finds none, the stream stays as it is.
    pub fn try_parse<T, F: Fn(&[char]) -> Option<(T, usize)>>(&mut self, parser: F) -> (value:
        Option<T>)
        requires
            forall|input: &[char]|
                input@ == old(self).remaining() ==> call_requires(parser, (input,)),
            forall|input: &[char], found: T, count: usize|
                input@ == old(self).remaining() && call_ensures(
                    parser,
                    (input,),
                    Some((found, count)),
                ) ==> count <= input@.len(),
        ensures
            value is Some ==> exists|count: usize|
                took(parser, old(self).remaining(), value.unwrap(), count, final(self).remaining()),
            value is None ==> final(self).remaining() == old(self).remaining() && parses(
                parser,
                old(self).remaining(),
                None::<(T, usize)>,
            ),
    {
        let input = self.rest();
        let parsed = parser(input);
        match parsed {
            Some((found, count)) => {
                proof {
                    assert(call_ensures(parser, (input,), Some((found, count))));
                    assert(count <= input@.len());
                }
                proof {
                    assert(parses(parser, self.remaining(), Some((found, count))));
                }
                self.advance(count);
                let value = Some(found);
                proof {
                    assert(took(parser, old(self).remaining(), value.unwrap(), count, self.remaining()));
                    assert(exists|c: usize| took(parser, old(self).remaining(), value.unwrap(), c, self.remaining()));
                }
                value
            },
            None => {
                proof {
                    assert(call_ensures(parser, (input,), None::<(T, usize)>));
                    assert(parses(parser, self.remaining(), None::<(T, usize)>));
                }
                None
            },
        }
    }
}

} // verus!
