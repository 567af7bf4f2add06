//! Command words: the low byte is the command, the other bits are options.

use vstd::prelude::*;

verus! {

pub const BR_ENTRY: u32 = 0x01;

pub const BR_EXIT: u32 = 0x02;

pub const ANSENTRY: u32 = 0x03;

pub const SENDMSG: u32 = 0x20;

pub const RECVMSG: u32 = 0x21;

pub const GETFILEDATA: u32 = 0x60;

pub const GETDIRFILES: u32 = 0x62;

pub const SENDCHECKOPT: u32 = 0x0000_0100;

pub const FILEATTACHOPT: u32 = 0x0020_0000;

/// A command word.
#[derive(Debug, Clone, Copy, PartialEq, Eq, Structural)]
pub struct Command(pub u32);

/// The command in a command word.
pub open spec fn command_num(word: u32) -> u32 {
    word & 0xff
}

/// Whether one of the bits of an option is set.
pub open spec fn command_has(word: u32, opt: u32) -> bool {
    word & opt != 0
}

/// A word with all the bits of the options set.
pub open spec fn with_options(num: u32, opts: Seq<u32>) -> u32
    decreases opts.len(),
{
    if opts.len() == 0 {
        num
    } else {
        with_options(num, opts.drop_last()) | opts.last()
    }
}

impl Command {
    /// The command, without options.
    pub fn num(&self) -> (r: u32)
        ensures
            r == command_num(self.0),
    {
        self.0 & 0xff
    }

    /// Whether an option is set.
    pub fn has_opt(&self, opt: u32) -> (r: bool)
        ensures
            r == command_has(self.0, opt),
    {
        self.0 & opt != 0
    }
}

/// The word for a command with options.
pub fn build(num: u32, opts: &[u32]) -> (r: u32)
    ensures
        r == with_options(num, opts@),
{
    let mut word: u32 = num;
    let mut i: usize = 0;
    proof {
        assert(opts@.take(0) =~= Seq::<u32>::empty());
    }
    while i < opts.len()
        invariant
            i <= opts.len(),
            word == with_options(num, opts@.take(i as int)),
        decreases opts.len() - i,
    {
        proof {
            assert(opts@.take(i + 1).drop_last() =~= opts@.take(i as int));
            assert(opts@.take(i + 1).last() == opts@[i as int]);
        }
        word = word | opts[i];
        i = i + 1;
    }
    proof {
        assert(opts@.take(i as int) =~= opts@);
    }
    word
}

/// Options above the low byte leave the command as it is, and each of them is
/// then set in the word.
pub proof fn law_options_keep_the_command(num: u32, opts: Seq<u32>)
    requires
        num <= 0xff,
        forall|i: int| 0 <= i < opts.len() ==> (#[trigger] opts[i]) & 0xff == 0,
    ensures
        command_num(with_options(num, opts)) == num,
        forall|i: int|
            0 <= i < opts.len() && #[trigger] opts[i] != 0 ==> command_has(
                with_options(num, opts),
                opts[i],
            ),
    decreases opts.len(),
{
    if opts.len() == 0 {
        assert(num & 0xff == num) by (bit_vector)
            requires
                num <= 0xff,
        ;
    } else {
        let rest = opts.drop_last();
        let last = opts.last();
        assert forall|i: int| 0 <= i < rest.len() implies (#[trigger] rest[i]) & 0xff == 0 by {
            assert(rest[i] == opts[i]);
        }
        law_options_keep_the_command(num, rest);
        let w = with_options(num, rest);
        assert(opts[opts.len() - 1] & 0xff == 0);
        assert((w | last) & 0xff == w & 0xff) by (bit_vector)
            requires
                last & 0xff == 0,
        ;
        assert forall|i: int| 0 <= i < opts.len() && #[trigger] opts[i] != 0 implies command_has(
            with_options(num, opts),
            opts[i],
        ) by {
            let o = opts[i];
            if i < rest.len() {
                assert(rest[i] == o);
                assert((w | last) & o != 0) by (bit_vector)
                    requires
                        w & o != 0,
                ;
            } else {
                assert((w | last) & last != 0) by (bit_vector)
                    requires
                        last != 0,
                ;
            }
        }
    }
}

} // verus!
