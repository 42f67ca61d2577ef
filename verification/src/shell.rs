//! The decision core of the interactive shell: splitting a typed line into
//! a command and arguments, choosing what one keystroke does to the line
//! being edited, and choosing the reply to a submitted line. The console
//! loop around it performs the reads and writes.

use vstd::prelude::*;
use crate::stack_vec::StackVec;

verus! {

/// Why a command line fails to parse.
#[derive(Clone, Copy, Debug, PartialEq, Eq, Structural)]
pub enum ParseError {
    /// The line holds no words.
    Empty,
    /// The line holds more words than the argument storage can take.
    TooManyArgs,
}

/// One step of the word scan: a space closes the word being gathered (if
/// any); any other byte extends it.
pub open spec fn words_step(acc: (Seq<Seq<u8>>, Seq<u8>), b: u8) -> (Seq<Seq<u8>>, Seq<u8>) {
    if b == 32 {
        if acc.1.len() == 0 {
            acc
        } else {
            (acc.0.push(acc.1), Seq::empty())
        }
    } else {
        (acc.0, acc.1.push(b))
    }
}

/// The word scan over `s`: the words closed so far and the word being
/// gathered.
pub open spec fn words_scan(s: Seq<u8>) -> (Seq<Seq<u8>>, Seq<u8>)
    decreases s.len(),
{
    if s.len() == 0 {
        (Seq::empty(), Seq::empty())
    } else {
        words_step(words_scan(s.drop_last()), s.last())
    }
}

/// The words of `s`: its maximal runs of non-space bytes, in order.
pub open spec fn words_of(s: Seq<u8>) -> Seq<Seq<u8>> {
    let scan = words_scan(s);
    if scan.1.len() == 0 {
        scan.0
    } else {
        scan.0.push(scan.1)
    }
}

/// The words of the arguments held in `args`.
pub open spec fn arg_views(args: Seq<Vec<u8>>) -> Seq<Seq<u8>> {
    Seq::new(args.len(), |i: int| args[i]@)
}

proof fn lemma_words_scan_step(s: Seq<u8>, i: int)
    requires
        0 <= i < s.len(),
    ensures
        words_scan(s.take(i + 1)) == words_step(words_scan(s.take(i)), s[i]),
{
    assert(s.take(i + 1).drop_last() =~= s.take(i));
    assert(s.take(i + 1).last() == s[i]);
}

proof fn lemma_words_mono(s: Seq<u8>, j: int)
    requires
        0 <= j <= s.len(),
    ensures
        words_of(s).len() >= words_scan(s.take(j)).0.len(),
    decreases s.len() - j,
{
    if j == s.len() {
        assert(s.take(j) =~= s);
    } else {
        lemma_words_scan_step(s, j);
        lemma_words_mono(s, j + 1);
    }
}

/// A single shell command: its arguments, the first of which is its path.
pub struct Command {
    args: StackVec<Vec<u8>>,
}

impl Command {
    /// The argument words, in order; never empty.
    pub closed spec fn args_spec(&self) -> Seq<Seq<u8>> {
        arg_views(self.args@)
    }

    /// Parses a command from the line `s`, gathering the arguments into the
    /// empty storage `buf`. Fails with `TooManyArgs` when the line holds
    /// more words than `buf` can take, and with `Empty` when it holds none.
    pub fn parse(s: &[u8], buf: StackVec<Vec<u8>>) -> (r: Result<Command, ParseError>)
        requires
            buf@.len() == 0,
        ensures
            match r {
                Ok(cmd) => 1 <= words_of(s@).len() <= buf.spec_capacity() && cmd.args_spec()
                    == words_of(s@),
                Err(e) => if words_of(s@).len() > buf.spec_capacity() {
                    e == ParseError::TooManyArgs
                } else {
                    e == ParseError::Empty && words_of(s@).len() == 0
                },
            },
    {
        let ghost cap = buf.spec_capacity();
        let mut args = buf;
        let mut cur: Vec<u8> = Vec::new();
        let mut i: usize = 0;
        proof {
            assert(s@.take(0) =~= Seq::<u8>::empty());
            assert(arg_views(args@) =~= Seq::<Seq<u8>>::empty());
        }
        while i < s.len()
            invariant
                i <= s@.len(),
                cap == buf.spec_capacity(),
                args.spec_capacity() == cap,
                args@.len() <= cap,
                (arg_views(args@), cur@) == words_scan(s@.take(i as int)),
            decreases s@.len() - i,
        {
            let b = s[i];
            proof {
                lemma_words_scan_step(s@, i as int);
            }
            if b == 32 {
                if cur.len() > 0 {
                    let word = cur;
                    cur = Vec::new();
                    let ghost pre = args@;
                    match args.push(word) {
                        Ok(_) => {
                            proof {
                                assert(arg_views(args@) =~= arg_views(pre).push(word@));
                            }
                        },
                        Err(_) => {
                            proof {
                                assert(arg_views(args@).len() == args@.len());
                                assert(words_scan(s@.take(i as int + 1)).0.len() == cap + 1);
                                lemma_words_mono(s@, i as int + 1);
                            }
                            return Err(ParseError::TooManyArgs);
                        },
                    }
                }
            } else {
                cur.push(b);
            }
            i = i + 1;
        }
        proof {
            assert(s@.take(s@.len() as int) =~= s@);
        }
        if cur.len() > 0 {
            let ghost pre = args@;
            match args.push(cur) {
                Ok(_) => {
                    proof {
                        assert(arg_views(args@) =~= words_of(s@));
                    }
                },
                Err(_) => {
                    proof {
                        assert(arg_views(args@).len() == args@.len());
                    }
                    return Err(ParseError::TooManyArgs);
                },
            }
        }
        if args.is_empty() {
            return Err(ParseError::Empty);
        }
        Ok(Command { args })
    }

    /// This command's path: its first argument.
    pub fn path(&self) -> (p: &Vec<u8>)
        requires
            self.args_spec().len() > 0,
        ensures
            p@ == self.args_spec()[0],
    {
        let slice = self.args.as_slice();
        &slice[0]
    }

    /// Gives the argument words up, in order.
    pub fn into_args(self) -> (args: Vec<Vec<u8>>)
        ensures
            arg_views(args@) == self.args_spec(),
    {
        let Command { args } = self;
        args.into_slice()
    }
}

/// What the line editor does with one typed byte, given the current line
/// length and the line capacity.
#[derive(Clone, Copy, Debug, PartialEq, Eq, Structural)]
pub enum KeyAction {
    /// Carriage return or newline: the line is submitted.
    Submit,
    /// Backspace or delete with a non-empty line: drop the last byte and
    /// erase it from the console.
    Erase,
    /// Backspace or delete on an empty line: nothing to do.
    Ignore,
    /// An ASCII byte with room left: append it to the line and echo it.
    Append,
    /// Anything else: ring the bell.
    Bell,
}

/// Decides what one typed byte does to the line being edited.
pub fn key_action(byte: u8, len: usize, capacity: usize) -> (a: KeyAction)
    ensures
        a == (if byte == 13 || byte == 10 {
            KeyAction::Submit
        } else if (byte == 8 || byte == 127) && len > 0 {
            KeyAction::Erase
        } else if byte == 8 || byte == 127 {
            KeyAction::Ignore
        } else if byte < 128 && len < capacity {
            KeyAction::Append
        } else {
            KeyAction::Bell
        }),
{
    if byte == 13 || byte == 10 {
        KeyAction::Submit
    } else if byte == 8 || byte == 127 {
        if len > 0 {
            KeyAction::Erase
        } else {
            KeyAction::Ignore
        }
    } else if byte < 128 && len < capacity {
        KeyAction::Append
    } else {
        KeyAction::Bell
    }
}

/// The word `echo`.
pub open spec fn echo_word() -> Seq<u8> {
    seq![101u8, 99u8, 104u8, 111u8]
}

/// The word `welcome`.
pub open spec fn welcome_word() -> Seq<u8> {
    seq![119u8, 101u8, 108u8, 99u8, 111u8, 109u8, 101u8]
}

/// The shell's reply to one submitted line.
pub enum ShellReply {
    /// Echo these arguments back, space-separated.
    Echo(Vec<Vec<u8>>),
    /// Print the welcome banner.
    Welcome,
    /// An unknown command: report its path.
    Unknown(Vec<u8>),
    /// The line held more words than the argument storage takes.
    TooManyArgs,
    /// An empty line: nothing to do.
    Silent,
}

fn bytes_eq(a: &[u8], b: &[u8]) -> (r: bool)
    ensures
        r == (a@ == b@),
{
    if a.len() != b.len() {
        return false;
    }
    let mut i: usize = 0;
    while i < a.len()
        invariant
            i <= a@.len(),
            a@.len() == b@.len(),
            forall|m: int| 0 <= m < i ==> a@[m] == b@[m],
        decreases a@.len() - i,
    {
        if a[i] != b[i] {
            return false;
        }
        i = i + 1;
    }
    proof {
        assert(a@ =~= b@);
    }
    true
}

/// Decides the reply to one submitted line, with `buf` as the empty
/// argument storage: `echo` echoes its arguments, `welcome` asks for the
/// banner, any other command is unknown, and a line with no words is
/// silent.
pub fn interpret_line(line: &[u8], buf: StackVec<Vec<u8>>) -> (r: ShellReply)
    requires
        buf@.len() == 0,
    ensures
        ({
            let ws = words_of(line@);
            let cap = buf.spec_capacity();
            match r {
                ShellReply::Silent => ws.len() == 0,
                ShellReply::TooManyArgs => ws.len() > cap,
                ShellReply::Welcome => 1 <= ws.len() <= cap && ws[0] == welcome_word(),
                ShellReply::Echo(args) => 1 <= ws.len() <= cap && ws[0] == echo_word()
                    && arg_views(args@) == ws.skip(1),
                ShellReply::Unknown(path) => 1 <= ws.len() <= cap && path@ == ws[0] && ws[0]
                    != echo_word() && ws[0] != welcome_word(),
            }
        }),
{
    let cmd = match Command::parse(line, buf) {
        Ok(cmd) => cmd,
        Err(ParseError::Empty) => {
            return ShellReply::Silent;
        },
        Err(ParseError::TooManyArgs) => {
            return ShellReply::TooManyArgs;
        },
    };
    let mut args = cmd.into_args();
    let path = args.remove(0);
    let mut echo: Vec<u8> = Vec::new();
    echo.push(101);
    echo.push(99);
    echo.push(104);
    echo.push(111);
    proof {
        assert(echo@ =~= echo_word());
    }
    let mut welcome: Vec<u8> = Vec::new();
    welcome.push(119);
    welcome.push(101);
    welcome.push(108);
    welcome.push(99);
    welcome.push(111);
    welcome.push(109);
    welcome.push(101);
    proof {
        assert(welcome@ =~= welcome_word());
    }
    if bytes_eq(path.as_slice(), echo.as_slice()) {
        proof {
            assert(arg_views(args@) =~= words_of(line@).skip(1));
        }
        ShellReply::Echo(args)
    } else if bytes_eq(path.as_slice(), welcome.as_slice()) {
        ShellReply::Welcome
    } else {
        ShellReply::Unknown(path)
    }
}

} // verus!
