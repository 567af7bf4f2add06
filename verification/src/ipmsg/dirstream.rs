//! Receiving a directory: a stream of entries, each a header and, for a file,
//! its content. Every entry is read to its end whether or not it is stored, so
//! that reader and sender stay in step.

use crate::ipmsg::filexfer;
use crate::ipmsg::filexfer::{safe_basename, split_escaped_fields, FILE_DIR, FILE_RETPARENT};
use crate::ipmsg::proto;
use crate::ipmsg::proto::gbk_decode;
use crate::numeral;
use crate::numeral::read_number;
use crate::text;
use crate::text::copy_texts;
use vstd::prelude::*;

verus! {

/// Content is copied in pieces of this size.
pub const COPY_CHUNK: u64 = 65536;

/// The most characters that a header size may have.
pub const MAX_SIZE_DIGITS: usize = 16;

/// What the start of an entry says of the size of its header.
#[derive(Debug, Clone, Copy, PartialEq, Eq, Structural)]
pub enum HeaderSize {
    /// There is no further entry.
    End,
    /// The stream ends inside the size.
    Truncated,
    /// The size is no hexadecimal number.
    NotHex,
    /// The size has too many characters.
    TooLong,
    /// The size of the header, and how many bytes of it have been read.
    Size { size: u64, consumed: u64 },
}

/// What an entry asks for. Paths are lists of names below the root.
#[derive(Debug, Clone, PartialEq, Eq)]
pub enum DirStep {
    /// The header is not sound: reading stops.
    Stop,
    /// Back to the parent directory.
    Back,
    /// Down into a directory, which is made if its name is safe.
    Enter { make: Option<Vec<String>> },
    /// A file with so many bytes of content, stored if its name is safe.
    File { path: Option<Vec<String>>, size: u64 },
}

/// What is done to the disk.
#[derive(Debug, Clone, PartialEq, Eq)]
pub enum DirEffect {
    MakeDir(Vec<String>),
    WriteFile { path: Vec<String>, content: Vec<u8> },
}

/// How reading ended.
#[derive(Debug, Clone, Copy, PartialEq, Eq, Structural)]
pub enum DirEnd {
    /// At the end of the stream, or at an entry that is not sound.
    Done,
    /// The stream ended inside a header size.
    TruncatedSize,
    /// A header size was no hexadecimal number.
    SizeNotHex,
    /// A header size had too many characters.
    SizeTooLong,
    /// The stream ended inside a header.
    TruncatedHeader,
    /// The stream ended inside the content of a file.
    TruncatedContent,
}

// ---------------------------------------------------------------------------
// Model
// ---------------------------------------------------------------------------

/// Bytes read as characters, one for one.
pub open spec fn latin(b: Seq<u8>) -> Seq<char> {
    b.map_values(|x: u8| x as char)
}

/// How many bytes the bytes take up as text: two for those outside ASCII.
pub open spec fn text_width(b: Seq<u8>) -> nat
    decreases b.len(),
{
    if b.len() == 0 {
        0
    } else {
        text_width(b.drop_last()) + if b.last() < 0x80 {
            1nat
        } else {
            2nat
        }
    }
}

/// The header size at the start of `s`, of which the first `n` bytes hold no colon.
pub open spec fn header_size_from(s: Seq<u8>, n: nat) -> HeaderSize
    decreases s.len() - n,
{
    if n >= s.len() {
        if n == 0 {
            HeaderSize::End
        } else {
            HeaderSize::Truncated
        }
    } else if s[n as int] == 58 {
        match numeral::parse_number(latin(s.take(n as int)), 16, u64::MAX as nat) {
            Some(v) => HeaderSize::Size { size: v as u64, consumed: (n + 1) as u64 },
            None => HeaderSize::NotHex,
        }
    } else if text_width(s.take((n + 1) as int)) > MAX_SIZE_DIGITS {
        HeaderSize::TooLong
    } else {
        header_size_from(s, n + 1)
    }
}

/// A path by its names.
pub open spec fn path_row(p: Option<Vec<String>>) -> Option<Seq<Seq<char>>> {
    match p {
        Some(v) => Some(text::texts(v@)),
        None => None,
    }
}

/// A step by the values that it holds.
#[verifier::ext_equal]
pub enum StepRow {
    Stop,
    Back,
    Enter { make: Option<Seq<Seq<char>>> },
    File { path: Option<Seq<Seq<char>>>, size: u64 },
}

impl View for DirStep {
    type V = StepRow;

    open spec fn view(&self) -> StepRow {
        match self {
            DirStep::Stop => StepRow::Stop,
            DirStep::Back => StepRow::Back,
            DirStep::Enter { make } => StepRow::Enter { make: path_row(*make) },
            DirStep::File { path, size } => StepRow::File { path: path_row(*path), size: *size },
        }
    }
}

/// An effect by the values that it holds.
#[verifier::ext_equal]
pub enum EffectRow {
    MakeDir(Seq<Seq<char>>),
    WriteFile { path: Seq<Seq<char>>, content: Seq<u8> },
}

impl View for DirEffect {
    type V = EffectRow;

    open spec fn view(&self) -> EffectRow {
        match self {
            DirEffect::MakeDir(p) => EffectRow::MakeDir(text::texts(p@)),
            DirEffect::WriteFile { path, content } => EffectRow::WriteFile {
                path: text::texts(path@),
                content: content@,
            },
        }
    }
}

/// Effects by their values.
pub open spec fn effect_rows(v: Seq<DirEffect>) -> Seq<EffectRow> {
    v.map_values(|e: DirEffect| e@)
}

/// The name below the current directory, if it is safe.
pub open spec fn below(current: Seq<Seq<char>>, name: Seq<char>) -> Option<Seq<Seq<char>>> {
    if filexfer::is_safe_name(name) {
        Some(current.push(name))
    } else {
        None
    }
}

/// What a header asks for in the current directory.
pub open spec fn step_of(header: Seq<char>, current: Seq<Seq<char>>) -> StepRow {
    let f = filexfer::escaped_fields(header);
    if f.len() < 3 {
        StepRow::Stop
    } else {
        match (
            numeral::parse_number(f[1], 16, u64::MAX as nat),
            numeral::parse_number(f[2], 16, u32::MAX as nat),
        ) {
            (Some(size), Some(attr)) => {
                let kind = (attr as u32) & 0xff;
                if kind == FILE_RETPARENT {
                    StepRow::Back
                } else if kind == FILE_DIR {
                    StepRow::Enter { make: below(current, f[0]) }
                } else {
                    StepRow::File { path: below(current, f[0]), size: size as u64 }
                }
            },
            _ => StepRow::Stop,
        }
    }
}

/// The open directories after a step, the root first. The root is never left,
/// and a directory that is not made is entered in name only.
pub open spec fn stack_after(stack: Seq<Seq<Seq<char>>>, step: StepRow) -> Seq<Seq<Seq<char>>> {
    match step {
        StepRow::Back => if stack.len() > 1 {
            stack.drop_last()
        } else {
            stack
        },
        StepRow::Enter { make } => stack.push(
            match make {
                Some(p) => p,
                None => stack.last(),
            },
        ),
        _ => stack,
    }
}

/// How much of the available content is stored when it is shorter than it
/// should be: whole pieces only.
pub open spec fn whole_chunks(available: nat) -> nat {
    available / (COPY_CHUNK as nat) * (COPY_CHUNK as nat)
}

/// What receiving the stream `s` does and how it ends, with `stack` open.
pub open spec fn received(s: Seq<u8>, stack: Seq<Seq<Seq<char>>>) -> (Seq<EffectRow>, DirEnd)
    decreases s.len(),
{
    match header_size_from(s, 0) {
        HeaderSize::End => (Seq::empty(), DirEnd::Done),
        HeaderSize::Truncated => (Seq::empty(), DirEnd::TruncatedSize),
        HeaderSize::NotHex => (Seq::empty(), DirEnd::SizeNotHex),
        HeaderSize::TooLong => (Seq::empty(), DirEnd::SizeTooLong),
        HeaderSize::Size { size, consumed } => if size < consumed || consumed == 0 {
            (Seq::empty(), DirEnd::Done)
        } else if s.len() < size {
            (Seq::empty(), DirEnd::TruncatedHeader)
        } else {
            let header = proto::gbk_decoded(s.subrange(consumed as int, size as int));
            let rest = s.skip(size as int);
            let step = step_of(header, stack.last());
            match step {
                StepRow::Stop => (Seq::empty(), DirEnd::Done),
                StepRow::Back => received(rest, stack_after(stack, step)),
                StepRow::Enter { make } => {
                    let (effects, end) = received(rest, stack_after(stack, step));
                    (
                        match make {
                            Some(p) => seq![EffectRow::MakeDir(p)] + effects,
                            None => effects,
                        },
                        end,
                    )
                },
                StepRow::File { path, size: length } => if rest.len() < length {
                    (
                        match path {
                            Some(p) => seq![
                                EffectRow::WriteFile {
                                    path: p,
                                    content: rest.take(whole_chunks(rest.len()) as int),
                                },
                            ],
                            None => Seq::empty(),
                        },
                        DirEnd::TruncatedContent,
                    )
                } else {
                    let (effects, end) = received(rest.skip(length as int), stack);
                    (
                        match path {
                            Some(p) => seq![
                                EffectRow::WriteFile { path: p, content: rest.take(length as int) },
                            ] + effects,
                            None => effects,
                        },
                        end,
                    )
                },
            }
        },
    }
}

// ---------------------------------------------------------------------------
// Reading
// ---------------------------------------------------------------------------

proof fn lemma_width_bound(b: Seq<u8>)
    ensures
        b.len() <= text_width(b) <= 2 * b.len(),
    decreases b.len(),
{
    if b.len() > 0 {
        lemma_width_bound(b.drop_last());
    }
}

/// The characters of bytes.
fn latin_text(b: &Vec<u8>) -> (s: String)
    ensures
        s@ == latin(b@),
{
    let mut s: String = String::new();
    let mut i: usize = 0;
    proof {
        assert(s@ =~= latin(b@.take(0)));
    }
    while i < b.len()
        invariant
            i <= b.len(),
            s@ == latin(b@.take(i as int)),
        decreases b.len() - i,
    {
        let c: char = b[i] as char;
        s.push(c);
        proof {
            assert(latin(b@.take(i + 1)) =~= latin(b@.take(i as int)).push(c));
        }
        i = i + 1;
    }
    proof {
        assert(b@.take(i as int) =~= b@);
    }
    s
}

/// The size of the header that stands at `from`. While an entry is still
/// arriving, `Truncated` and `End` mean that more bytes are needed.
pub fn read_header_size(s: &[u8], from: usize) -> (r: HeaderSize)
    requires
        from <= s.len(),
    ensures
        r == header_size_from(s@.skip(from as int), 0),
{
    let ghost t = s@.skip(from as int);
    let mut digits: Vec<u8> = Vec::new();
    let mut width: usize = 0;
    let mut i: usize = from;
    proof {
        assert(t.take(0) =~= Seq::<u8>::empty());
    }
    while i < s.len()
        invariant
            from <= i <= s.len(),
            t == s@.skip(from as int),
            digits@ == t.take(i - from),
            width == text_width(digits@),
            width <= MAX_SIZE_DIGITS,
            header_size_from(t, 0) == header_size_from(t, (i - from) as nat),
        decreases s.len() - i,
    {
        let b: u8 = s[i];
        assert(t[i - from] == b);
        if b == 58 {
            let r: Option<u64> = read_number(&latin_text(&digits), 16, u64::MAX);
            proof {
                lemma_width_bound(digits@);
            }
            return match r {
                Some(v) => HeaderSize::Size { size: v, consumed: (i - from) as u64 + 1 },
                None => HeaderSize::NotHex,
            };
        }
        width = width + if b < 0x80 {
            1
        } else {
            2
        };
        digits.push(b);
        proof {
            assert(t.take(i - from + 1) =~= digits@);
            assert(digits@.drop_last() =~= t.take(i - from));
        }
        if width > MAX_SIZE_DIGITS {
            return HeaderSize::TooLong;
        }
        i = i + 1;
    }
    if i == from {
        HeaderSize::End
    } else {
        HeaderSize::Truncated
    }
}

/// What is to be done about an entry whose start is arriving.
#[derive(Debug, Clone, Copy, PartialEq, Eq, Structural)]
pub enum EntryStep {
    /// A further byte is needed.
    More,
    /// This many bytes of the header are still to come.
    Header { left: u64 },
    /// Reading ends here.
    End(DirEnd),
}

/// What is to be done about an entry of which these bytes are there. `ended`
/// tells whether the stream has come to its end behind them.
pub open spec fn entry_step_of(head: Seq<u8>, ended: bool) -> EntryStep {
    match header_size_from(head, 0) {
        HeaderSize::End => if ended {
            EntryStep::End(DirEnd::Done)
        } else {
            EntryStep::More
        },
        HeaderSize::Truncated => if ended {
            EntryStep::End(DirEnd::TruncatedSize)
        } else {
            EntryStep::More
        },
        HeaderSize::NotHex => EntryStep::End(DirEnd::SizeNotHex),
        HeaderSize::TooLong => EntryStep::End(DirEnd::SizeTooLong),
        HeaderSize::Size { size, consumed } => if size < consumed {
            EntryStep::End(DirEnd::Done)
        } else {
            EntryStep::Header { left: (size - consumed) as u64 }
        },
    }
}

/// What is to be done about an entry of which these bytes are there. An entry
/// that is shorter than its own length field ends the stream.
pub fn entry_step(head: &[u8], ended: bool) -> (r: EntryStep)
    ensures
        r == entry_step_of(head@, ended),
{
    assert(head@.skip(0) =~= head@);
    match read_header_size(head, 0) {
        HeaderSize::End => if ended {
            EntryStep::End(DirEnd::Done)
        } else {
            EntryStep::More
        },
        HeaderSize::Truncated => if ended {
            EntryStep::End(DirEnd::TruncatedSize)
        } else {
            EntryStep::More
        },
        HeaderSize::NotHex => EntryStep::End(DirEnd::SizeNotHex),
        HeaderSize::TooLong => EntryStep::End(DirEnd::SizeTooLong),
        HeaderSize::Size { size, consumed } => if size < consumed {
            EntryStep::End(DirEnd::Done)
        } else {
            EntryStep::Header { left: size - consumed }
        },
    }
}

proof fn lemma_size_of_prefix(s: Seq<u8>, m: int, n: nat)
    requires
        n <= m <= s.len(),
    ensures
        !(header_size_from(s.take(m), n) is End) && !(header_size_from(s.take(m), n) is Truncated)
            ==> header_size_from(s, n) == header_size_from(s.take(m), n),
    decreases m - n,
{
    let t = s.take(m);
    if n < m {
        assert(t[n as int] == s[n as int]);
        assert(t.take(n as int) =~= s.take(n as int));
        assert(t.take((n + 1) as int) =~= s.take((n + 1) as int));
        lemma_size_of_prefix(s, m, n + 1);
    }
}

/// Reading the start of an entry byte by byte decides as soon as it can, and as
/// the whole stream would: it ends as receiving does, or goes on with the header
/// that receiving reads.
pub proof fn law_entry_is_read_byte_by_byte(s: Seq<u8>, m: int, stack: Seq<Seq<Seq<char>>>)
    requires
        0 <= m <= s.len(),
    ensures
        match entry_step_of(s.take(m), m == s.len()) {
            EntryStep::More => m < s.len(),
            EntryStep::End(end) => received(s, stack) == (Seq::<EffectRow>::empty(), end),
            EntryStep::Header { left } => header_size_from(s, 0) matches HeaderSize::Size {
                size,
                consumed,
            } && consumed <= size && left == size - consumed,
        },
{
    lemma_size_of_prefix(s, m, 0);
    if m == s.len() {
        assert(s.take(m) =~= s);
    }
}

/// The directories that are open, the root first.
#[derive(Debug)]
pub struct DirStack {
    open: Vec<Vec<String>>,
}

impl View for DirStack {
    type V = Seq<Seq<Seq<char>>>;

    closed spec fn view(&self) -> Seq<Seq<Seq<char>>> {
        self.open@.map_values(|p: Vec<String>| text::texts(p@))
    }
}

impl DirStack {
    #[verifier::type_invariant]
    spec fn inv(self) -> bool {
        self.open@.len() > 0
    }

    /// Only the root.
    pub fn new() -> (r: Self)
        ensures
            r@ == seq![Seq::<Seq<char>>::empty()],
    {
        let mut open: Vec<Vec<String>> = Vec::new();
        let root: Vec<String> = Vec::new();
        open.push(root);
        let r: DirStack = DirStack { open };
        proof {
            assert(text::texts(root@) =~= Seq::<Seq<char>>::empty());
            assert(r@ =~= seq![Seq::<Seq<char>>::empty()]);
        }
        r
    }

    /// The current directory.
    fn current(&self) -> (r: &Vec<String>)
        ensures
            self@.len() > 0,
            text::texts(r@) == self@.last(),
    {
        proof {
            use_type_invariant(self);
        }
        &self.open[self.open.len() - 1]
    }

    /// Opens a directory.
    fn push(&mut self, p: Vec<String>)
        ensures
            final(self)@ == old(self)@.push(text::texts(p@)),
    {
        proof {
            use_type_invariant(&*self);
        }
        let ghost before = self@;
        let mut open: Vec<Vec<String>> = Vec::new();
        open.push(Vec::new());
        std::mem::swap(&mut self.open, &mut open);
        open.push(p);
        self.open = open;
        proof {
            assert(self@ =~= before.push(text::texts(p@)));
        }
    }

    /// Goes back to the parent directory, if there is one.
    fn back(&mut self)
        ensures
            final(self)@ == stack_after(old(self)@, StepRow::Back),
    {
        proof {
            use_type_invariant(&*self);
        }
        let ghost before = self@;
        if self.open.len() > 1 {
            let mut open: Vec<Vec<String>> = Vec::new();
            open.push(Vec::new());
            std::mem::swap(&mut self.open, &mut open);
            let _ = open.pop();
            self.open = open;
            proof {
                assert(self@ =~= before.drop_last());
            }
        }
    }

    /// The path of a name below the current directory, if the name is safe.
    fn below_current(&self, name: &str) -> (r: Option<Vec<String>>)
        ensures
            self@.len() > 0,
            path_row(r) == below(self@.last(), name@),
    {
        match safe_basename(name) {
            Some(n) => {
                let mut p: Vec<String> = copy_texts(self.current());
                let ghost before = p@;
                p.push(n);
                proof {
                    assert(text::texts(p@) =~= text::texts(before).push(n@));
                }
                Some(p)
            },
            None => {
                let _ = self.current();
                None
            },
        }
    }

    /// Takes in the header of an entry: says what it asks for, and opens or
    /// closes a directory accordingly.
    pub fn take_header(&mut self, header: &str) -> (r: DirStep)
        ensures
            old(self)@.len() > 0,
            r@ == step_of(header@, old(self)@.last()),
            final(self)@ == stack_after(old(self)@, r@),
    {
        let _ = self.current();
        let ghost before = self@;
        let f: Vec<String> = split_escaped_fields(header);
        let ghost fields = filexfer::escaped_fields(header@);
        proof {
            assert(f@.len() == fields.len());
            assert(forall|i: int| 0 <= i < fields.len() ==> fields[i] == (#[trigger] f@[i])@);
        }
        if f.len() < 3 {
            return DirStep::Stop;
        }
        let size: Option<u64> = read_number(&f[1], 16, u64::MAX);
        let attr: Option<u64> = read_number(&f[2], 16, u32::MAX as u64);
        match (size, attr) {
            (Some(size), Some(attr)) => {
                let kind: u32 = (attr as u32) & 0xff;
                if kind == FILE_RETPARENT {
                    self.back();
                    return DirStep::Back;
                }
                let path: Option<Vec<String>> = self.below_current(&f[0]);
                if kind == FILE_DIR {
                    let opened: Vec<String> = match &path {
                        Some(p) => copy_texts(p),
                        None => copy_texts(self.current()),
                    };
                    self.push(opened);
                    DirStep::Enter { make: path }
                } else {
                    DirStep::File { path, size }
                }
            },
            _ => DirStep::Stop,
        }
    }
}

/// Copies `size` bytes in pieces. If there are fewer, the whole pieces are
/// copied and the answer is no.
pub fn copy_exact(s: &[u8], from: usize, size: u64) -> (r: (Vec<u8>, bool))
    requires
        from <= s.len(),
    ensures
        r.1 == (s.len() - from >= size),
        r.1 ==> r.0@ == s@.subrange(from as int, from + size),
        !r.1 ==> r.0@ == s@.skip(from as int).take(whole_chunks((s.len() - from) as nat) as int),
{
    let mut out: Vec<u8> = Vec::new();
    let mut at: usize = from;
    let mut remaining: u64 = size;
    while remaining > 0
        invariant
            from <= at <= s.len(),
            remaining <= size,
            at - from == size - remaining,
            out@ == s@.subrange(from as int, at as int),
            remaining > 0 ==> (at - from) % (COPY_CHUNK as int) == 0,
        decreases remaining,
    {
        let want: u64 = if remaining < COPY_CHUNK {
            remaining
        } else {
            COPY_CHUNK
        };
        if ((s.len() - at) as u64) < want {
            proof {
                let available = (s.len() - from) as nat;
                let done = (at - from) as nat;
                assert(done <= available < done + COPY_CHUNK);
                assert(done == whole_chunks(available)) by {
                    assert(done % 65536 == 0);
                    assert(available / 65536 == done / 65536);
                }
                assert(out@ =~= s@.skip(from as int).take(whole_chunks(available) as int));
            }
            return (out, false);
        }
        let stop: usize = at + want as usize;
        let ghost start = at;
        while at < stop
            invariant
                from <= start <= at <= stop <= s.len(),
                out@ == s@.subrange(from as int, at as int),
            decreases stop - at,
        {
            out.push(s[at]);
            proof {
                assert(out@ =~= s@.subrange(from as int, at + 1));
            }
            at = at + 1;
        }
        remaining = remaining - want;
    }
    proof {
        assert(out@ =~= s@.subrange(from as int, from + size));
    }
    (out, true)
}

/// Receives a whole stream: what it does to the disk, and how it ended.
pub fn receive_dir_stream(s: &[u8]) -> (r: (Vec<DirEffect>, DirEnd))
    ensures
        (effect_rows(r.0@), r.1) == received(s@, seq![Seq::<Seq<char>>::empty()]),
{
    let mut effects: Vec<DirEffect> = Vec::new();
    let mut stack: DirStack = DirStack::new();
    let mut at: usize = 0;
    let ghost whole = received(s@, stack@);
    proof {
        assert(s@.skip(0) =~= s@);
        assert(effect_rows(effects@) =~= Seq::<EffectRow>::empty());
        assert(effect_rows(effects@) + received(s@, stack@).0 =~= received(s@, stack@).0);
    }
    loop
        invariant
            at <= s.len(),
            whole == received(s@, seq![Seq::<Seq<char>>::empty()]),
            whole.0 == effect_rows(effects@) + received(s@.skip(at as int), stack@).0,
            whole.1 == received(s@.skip(at as int), stack@).1,
        ensures
            whole.0 == effect_rows(effects@) + received(s@.skip(at as int), stack@).0,
            whole.1 == received(s@.skip(at as int), stack@).1,
        decreases s.len() - at,
    {
        let ghost t = s@.skip(at as int);
        let ghost open = stack@;
        let ghost before = effects@;
        proof {
            assert(effect_rows(before) + Seq::<EffectRow>::empty() =~= effect_rows(before));
        }
        match read_header_size(s, at) {
            HeaderSize::End => {
                return (effects, DirEnd::Done);
            },
            HeaderSize::Truncated => {
                return (effects, DirEnd::TruncatedSize);
            },
            HeaderSize::NotHex => {
                return (effects, DirEnd::SizeNotHex);
            },
            HeaderSize::TooLong => {
                return (effects, DirEnd::SizeTooLong);
            },
            HeaderSize::Size { size, consumed } => {
                if size < consumed || consumed == 0 {
                    return (effects, DirEnd::Done);
                }
                if ((s.len() - at) as u64) < size {
                    return (effects, DirEnd::TruncatedHeader);
                }
                let start: usize = at + consumed as usize;
                let stop: usize = at + size as usize;
                let mut header: Vec<u8> = Vec::new();
                let mut k: usize = start;
                while k < stop
                    invariant
                        at <= start <= k <= stop <= s.len(),
                        header@ == s@.subrange(start as int, k as int),
                    decreases stop - k,
                {
                    header.push(s[k]);
                    proof {
                        assert(header@ =~= s@.subrange(start as int, k + 1));
                    }
                    k = k + 1;
                }
                let ghost rest = t.skip(size as int);
                proof {
                    assert(header@ =~= t.subrange(consumed as int, size as int));
                    assert(rest =~= s@.skip(stop as int));
                }
                let line: String = gbk_decode(&header);
                let step: DirStep = stack.take_header(&line);
                match step {
                    DirStep::Stop => {
                        return (effects, DirEnd::Done);
                    },
                    DirStep::Back => {
                        at = stop;
                    },
                    DirStep::Enter { make } => {
                        if let Some(p) = make {
                            effects.push(DirEffect::MakeDir(p));
                            proof {
                                assert(effect_rows(effects@) =~= effect_rows(before).push(
                                    EffectRow::MakeDir(text::texts(p@)),
                                ));
                                let later = received(rest, stack@).0;
                                assert(effect_rows(effects@) + later =~= effect_rows(before) + (
                                seq![EffectRow::MakeDir(text::texts(p@))] + later));
                            }
                        }
                        at = stop;
                    },
                    DirStep::File { path, size: length } => {
                        let (content, complete) = copy_exact(s, stop, length);
                        if !complete {
                            if let Some(p) = path {
                                effects.push(DirEffect::WriteFile { path: p, content });
                                proof {
                                    assert(effect_rows(effects@) =~= effect_rows(before) + seq![
                                        EffectRow::WriteFile {
                                            path: text::texts(p@),
                                            content: content@,
                                        },
                                    ]);
                                }
                            }
                            return (effects, DirEnd::TruncatedContent);
                        }
                        proof {
                            assert(rest.take(length as int) =~= content@);
                            assert(rest.skip(length as int) =~= s@.skip(stop + length));
                        }
                        if let Some(p) = path {
                            effects.push(DirEffect::WriteFile { path: p, content });
                            proof {
                                let e = EffectRow::WriteFile {
                                    path: text::texts(p@),
                                    content: content@,
                                };
                                assert(effect_rows(effects@) =~= effect_rows(before).push(e));
                                let later = received(rest.skip(length as int), stack@).0;
                                assert(effect_rows(effects@) + later =~= effect_rows(before) + (
                                seq![e] + later));
                            }
                        }
                        at = stop + length as usize;
                    },
                }
            },
        }
    }
}

// ---------------------------------------------------------------------------
// Laws
// ---------------------------------------------------------------------------

/// Whether every name on a path is safe.
pub open spec fn is_inside(path: Seq<Seq<char>>) -> bool {
    forall|i: int| 0 <= i < path.len() ==> filexfer::is_safe_name(#[trigger] path[i])
}

/// The path that an effect touches.
pub open spec fn touched(e: EffectRow) -> Seq<Seq<char>> {
    match e {
        EffectRow::MakeDir(p) => p,
        EffectRow::WriteFile { path, .. } => path,
    }
}

/// Whatever a stream holds, nothing is touched outside the root: every name on
/// every path is a safe one.
pub proof fn law_stream_stays_inside(s: Seq<u8>, stack: Seq<Seq<Seq<char>>>)
    requires
        stack.len() > 0,
        forall|i: int| 0 <= i < stack.len() ==> is_inside(#[trigger] stack[i]),
    ensures
        forall|i: int|
            0 <= i < received(s, stack).0.len() ==> is_inside(
                touched(#[trigger] received(s, stack).0[i]),
            ) && touched(received(s, stack).0[i]).len() > 0,
    decreases s.len(),
{
    match header_size_from(s, 0) {
        HeaderSize::Size { size, consumed } => {
            if size >= consumed && consumed > 0 && s.len() >= size {
                let header = proto::gbk_decoded(s.subrange(consumed as int, size as int));
                let rest = s.skip(size as int);
                let step = step_of(header, stack.last());
                let after = stack_after(stack, step);
                let name = filexfer::escaped_fields(header)[0];
                assert(is_inside(stack[stack.len() - 1]));
                let path = below(stack.last(), name);
                if path is Some {
                    let p = path->Some_0;
                    assert forall|i: int| 0 <= i < p.len() implies filexfer::is_safe_name(
                        #[trigger] p[i],
                    ) by {
                        if i < stack.last().len() {
                            assert(p[i] == stack.last()[i]);
                        }
                    }
                    assert(is_inside(p));
                }
                assert forall|i: int| 0 <= i < after.len() implies is_inside(#[trigger] after[i]) by {
                    if i < stack.len() {
                        assert(after[i] == stack[i]);
                    }
                }
                match step {
                    StepRow::Stop => {},
                    StepRow::Back => {
                        law_stream_stays_inside(rest, after);
                    },
                    StepRow::Enter { make } => {
                        law_stream_stays_inside(rest, after);
                        lemma_front_inside(received(rest, after).0, make);
                    },
                    StepRow::File { path, size: length } => {
                        if rest.len() >= length {
                            law_stream_stays_inside(rest.skip(length as int), stack);
                            let later = received(rest.skip(length as int), stack).0;
                            if path is Some {
                                let e = EffectRow::WriteFile {
                                    path: path->Some_0,
                                    content: rest.take(length as int),
                                };
                                let all = seq![e] + later;
                                assert forall|i: int| 0 <= i < all.len() implies is_inside(
                                    touched(#[trigger] all[i]),
                                ) && touched(all[i]).len() > 0 by {
                                    if i > 0 {
                                        assert(all[i] == later[i - 1]);
                                    }
                                }
                            }
                        }
                    },
                }
            }
        },
        _ => {},
    }
}

proof fn lemma_front_inside(later: Seq<EffectRow>, make: Option<Seq<Seq<char>>>)
    requires
        forall|i: int|
            0 <= i < later.len() ==> is_inside(touched(#[trigger] later[i])) && touched(
                later[i],
            ).len() > 0,
        make is Some ==> is_inside(make->Some_0) && make->Some_0.len() > 0,
    ensures
        make is Some ==> forall|i: int|
            0 <= i < later.len() + 1 ==> is_inside(
                touched(#[trigger] (seq![EffectRow::MakeDir(make->Some_0)] + later)[i]),
            ) && touched((seq![EffectRow::MakeDir(make->Some_0)] + later)[i]).len() > 0,
{
    if make is Some {
        let all = seq![EffectRow::MakeDir(make->Some_0)] + later;
        assert forall|i: int| 0 <= i < later.len() + 1 implies is_inside(
            touched(#[trigger] all[i]),
        ) && touched(all[i]).len() > 0 by {
            if i > 0 {
                assert(all[i] == later[i - 1]);
            }
        }
    }
}

/// A file whose name is not safe is read past: what follows it is received as
/// if it had not been there.
pub proof fn law_unsafe_file_is_read_past(
    s: Seq<u8>,
    stack: Seq<Seq<Seq<char>>>,
    size: u64,
    consumed: u64,
    length: u64,
)
    requires
        header_size_from(s, 0) == (HeaderSize::Size { size, consumed }),
        0 < consumed <= size,
        size + length <= s.len(),
        step_of(proto::gbk_decoded(s.subrange(consumed as int, size as int)), stack.last()) == (
        StepRow::File { path: None, size: length }),
    ensures
        received(s, stack) == received(s.skip(size + length), stack),
{
    assert(s.skip(size as int).skip(length as int) =~= s.skip(size + length));
}

/// The header of an entry is followed: one that leads back does so, a directory is entered
/// and made under its name below the current one, and anything else is a file of the
/// given size under its name there. Under a name that cannot be used nothing is made.
pub proof fn law_header_is_followed(
    name: Seq<char>,
    size: u64,
    attr: u32,
    current: Seq<Seq<char>>,
)
    ensures
        ({
            let step = step_of(filexfer::entry_header_text(name, size, attr), current);
            let here = if filexfer::is_safe_name(name) {
                Some(current.push(name))
            } else {
                None
            };
            &&& attr & 0xff == 3 ==> step is Back
            &&& attr & 0xff == 2 ==> (step matches StepRow::Enter { make } && make == here)
            &&& attr & 0xff != 3 && attr & 0xff != 2 ==> (step matches StepRow::File {
                path,
                size: n,
            } && path == here && n == size)
        }),
{
    filexfer::law_entry_header_is_read_back(name, size, attr);
}

/// Leading back undoes entering, and the root is never left.
pub proof fn law_back_undoes_enter(
    stack: Seq<Seq<Seq<char>>>,
    make: Option<Seq<Seq<char>>>,
    path: Option<Seq<Seq<char>>>,
    size: u64,
)
    requires
        stack.len() > 0,
    ensures
        stack_after(stack_after(stack, StepRow::Enter { make }), StepRow::Back) == stack,
        stack_after(stack, StepRow::Enter { make }).last() == (match make {
            Some(p) => p,
            None => stack.last(),
        }),
        stack_after(stack, StepRow::File { path, size }) == stack,
        stack_after(stack, StepRow::Back).len() > 0,
        stack_after(stack, StepRow::Back)[0] == stack[0],
        stack.len() > 1 ==> stack_after(stack, StepRow::Back) == stack.take(stack.len() - 1),
{
    assert(stack_after(stack_after(stack, StepRow::Enter { make }), StepRow::Back) =~= stack);
    if stack.len() > 1 {
        assert(stack_after(stack, StepRow::Back) =~= stack.take(stack.len() - 1));
    }
}

proof fn lemma_ascii_width(b: Seq<u8>)
    requires
        forall|i: int| 0 <= i < b.len() ==> #[trigger] b[i] < 0x80,
    ensures
        text_width(b) == b.len(),
    decreases b.len(),
{
    if b.len() > 0 {
        let t = b.drop_last();
        assert forall|i: int| 0 <= i < t.len() implies #[trigger] t[i] < 0x80 by {
            assert(b[i] < 0x80);
        }
        assert(b[b.len() - 1] < 0x80);
        lemma_ascii_width(t);
    }
}

proof fn lemma_size_from(s: Seq<u8>, n: nat, k: nat, v: u64)
    requires
        n <= k < s.len(),
        k <= MAX_SIZE_DIGITS,
        s[k as int] == 58,
        latin(s.take(k as int)) == numeral::hexadecimal(v as nat),
        k > 0,
    ensures
        header_size_from(s, n) == (HeaderSize::Size { size: v, consumed: (k + 1) as u64 }),
    decreases k - n,
{
    let digits = latin(s.take(k as int));
    numeral::lemma_numeral_value(v as nat, 16);
    numeral::lemma_parse_numeral(v as nat, 16, u64::MAX as nat);
    if n < k {
        assert forall|i: int| 0 <= i < k implies #[trigger] s[i] < 0x80 && s[i] != 58 by {
            assert(digits[i] == s[i] as char);
            assert(digits[i] as int == s[i] as int);
        }
        assert(s[n as int] != 58);
        let t = s.take((n + 1) as int);
        assert forall|i: int| 0 <= i < t.len() implies #[trigger] t[i] < 0x80 by {
            assert(s[i] < 0x80);
        }
        lemma_ascii_width(t);
        lemma_size_from(s, n + 1, k, v);
    }
}

/// The size at the start of an entry is read as it is written: its hexadecimal digits, and the
/// colon behind them.
pub proof fn law_header_size_is_read(s: Seq<u8>, k: nat, v: u64)
    requires
        0 < k < s.len(),
        k <= 16,
        s[k as int] == 58,
        latin(s.take(k as int)) == numeral::hexadecimal(v as nat),
    ensures
        header_size_from(s, 0) == (HeaderSize::Size { size: v, consumed: (k + 1) as u64 }),
{
    lemma_size_from(s, 0, k, v);
}

/// A stream is received entry by entry. A directory is made under its name below the current
/// one, and what follows goes below it; a file is written there with exactly the bytes
/// behind its header; leading back goes on one directory up. Nothing of an entry is lost,
/// and nothing of what follows it.
pub proof fn law_stream_is_received_entry_by_entry(
    s: Seq<u8>,
    stack: Seq<Seq<Seq<char>>>,
    size: u64,
    consumed: u64,
    name: Seq<char>,
    length: u64,
    attr: u32,
)
    requires
        stack.len() > 0,
        header_size_from(s, 0) == (HeaderSize::Size { size, consumed }),
        0 < consumed <= size,
        size <= s.len(),
        proto::gbk_decoded(s.subrange(consumed as int, size as int))
            == filexfer::entry_header_text(name, length, attr),
        filexfer::is_safe_name(name),
    ensures
        ({
            let here = stack.last().push(name);
            let rest = s.skip(size as int);
            &&& attr & 0xff == 3 && stack.len() > 1 ==> received(s, stack) == received(
                rest,
                stack.take(stack.len() - 1),
            )
            &&& attr & 0xff == 2 ==> received(s, stack).0 == seq![EffectRow::MakeDir(here)]
                + received(rest, stack.push(here)).0 && received(s, stack).1 == received(
                rest,
                stack.push(here),
            ).1
            &&& attr & 0xff != 2 && attr & 0xff != 3 && length <= rest.len() ==> received(
                s,
                stack,
            ).0 == seq![
                EffectRow::WriteFile { path: here, content: s.subrange(size as int, size + length) },
            ] + received(s.skip(size + length), stack).0 && received(s, stack).1 == received(
                s.skip(size + length),
                stack,
            ).1
            &&& attr & 0xff != 2 && attr & 0xff != 3 && length > rest.len() ==> received(
                s,
                stack,
            ).1 is TruncatedContent && received(s, stack).0.len() == 1 && (received(s, stack).0[0]
                matches EffectRow::WriteFile { path, content } && path == here
                && content.len() <= rest.len() && content == rest.take(content.len() as int)
                && rest.len() - content.len() < COPY_CHUNK)
        }),
{
    let rest = s.skip(size as int);
    let n = rest.len() as int;
    let c = COPY_CHUNK as int;
    assert(0 <= n / c * c <= n && n - n / c * c < c) by (nonlinear_arith)
        requires
            n >= 0,
            c == 65536,
    ;
    law_header_is_followed(name, length, attr, stack.last());
    if stack.len() > 1 {
        assert(stack.drop_last() =~= stack.take(stack.len() - 1));
    }
    if length <= rest.len() {
        assert(rest.take(length as int) =~= s.subrange(size as int, size + length));
        assert(rest.skip(length as int) =~= s.skip(size + length));
    }
}

} // verus!
