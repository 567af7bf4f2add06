//! Receiving a file: the bytes go to a part file beside the place where the
//! file will be, a digest is taken on the way, and only a file with the digest
//! that was announced is moved into place. A part file that is already there
//! is gone on with. The name is a plain file name, never a path.

use crate::digest;
use crate::digest::Blake3;
use crate::text::{chars_of, contains_char, owned, same_text};
use vstd::prelude::*;
use vstd::slice::slice_subrange;
use vstd::string::StringExecFns;

verus! {

/// What a part file's name ends with.
pub const PART_SUFFIX: &'static str = ".bigpaw-part";

/// The most bytes that are handled at once.
pub const CHUNK: usize = 1_048_576;

/// Why a file was not received.
#[derive(Debug, Clone, PartialEq, Eq)]
pub enum XferError {
    /// A file or the connection could not be read or written.
    Io(String),
    /// The name is no plain file name.
    BadName,
    /// The digest is not the one that was announced.
    Checksum { expected: String, actual: String },
}

impl XferError {
    /// The message for the user.
    pub open spec fn message(self) -> Seq<char> {
        match self {
            XferError::Io(why) => "io: "@ + why@,
            XferError::BadName => "非法文件名(可能路径穿越)"@,
            XferError::Checksum { expected, actual } => "blake3 校验失败:期望 "@ + expected@
                + ", 实际 "@ + actual@,
        }
    }

    /// The message for the user.
    pub fn to_text(&self) -> (r: String)
        ensures
            r@ == self.message(),
    {
        match self {
            XferError::Io(why) => {
                let mut s = owned("io: ");
                s.append(why.as_str());
                s
            },
            XferError::BadName => owned("非法文件名(可能路径穿越)"),
            XferError::Checksum { expected, actual } => {
                let mut s = owned("blake3 校验失败:期望 ");
                s.append(expected.as_str());
                s.append(", 实际 ");
                s.append(actual.as_str());
                s
            },
        }
    }
}

// ---------------------------------------------------------------------------
// Names and paths
// ---------------------------------------------------------------------------

/// Whether a name is a plain file name: not empty, no directory, no separator.
pub open spec fn is_plain_name(name: Seq<char>) -> bool {
    &&& name.len() > 0
    &&& name != ".."@
    &&& name != "."@
    &&& !name.contains('/')
    &&& !name.contains('\\')
    &&& !name.contains('\u{0}')
}

/// The name, if it is a plain file name.
pub fn safe_basename(name: &str) -> (r: Option<String>)
    ensures
        r is Some <==> is_plain_name(name@),
        r matches Some(s) ==> s@ == name@,
{
    if name.is_empty() || same_text(name, "..") || same_text(name, ".") {
        return None;
    }
    if contains_char(name, '/') || contains_char(name, '\\') || contains_char(name, '\u{0}') {
        return None;
    }
    Some(owned(name))
}

/// Whether a character parts a path where `separator` is the one that the
/// platform writes. A slash does everywhere.
pub open spec fn parts_path(c: char, separator: char) -> bool {
    c == '/' || c == separator
}

/// The path of a name in a directory. A name that begins with a separator is a
/// path of its own.
pub open spec fn joined(dir: Seq<char>, separator: char, name: Seq<char>) -> Seq<char> {
    if name.len() > 0 && parts_path(name[0], separator) {
        name
    } else if dir.len() == 0 || parts_path(dir.last(), separator) {
        dir + name
    } else {
        dir + seq![separator] + name
    }
}

/// The path of a name in a directory. A name that begins with a separator is a
/// path of its own.
pub fn join_path(dir: &str, separator: char, name: &str) -> (r: String)
    ensures
        r@ == joined(dir@, separator, name@),
{
    let d: Vec<char> = chars_of(dir);
    let n: Vec<char> = chars_of(name);
    if n.len() > 0 && (n[0] == '/' || n[0] == separator) {
        return owned(name);
    }
    let mut s = owned(dir);
    if d.len() > 0 && d[d.len() - 1] != '/' && d[d.len() - 1] != separator {
        s.push(separator);
    }
    s.append(name);
    assert(s@ =~= joined(dir@, separator, name@));
    s
}

/// The path of a file's part file.
pub open spec fn part_path_of(dir: Seq<char>, separator: char, name: Seq<char>) -> Seq<char> {
    joined(dir, separator, name + PART_SUFFIX@)
}

/// The path of a file's part file.
pub fn part_path(download_dir: &str, separator: char, name: &str) -> (r: String)
    ensures
        r@ == part_path_of(download_dir@, separator, name@),
{
    let mut s = owned(name);
    s.append(PART_SUFFIX);
    join_path(download_dir, separator, s.as_str())
}

/// A file that is received under a plain name stands directly in the
/// directory, and so does its part file.
pub proof fn law_plain_name_stays_inside(dir: Seq<char>, separator: char, name: Seq<char>)
    requires
        is_plain_name(name),
        separator == '/' || separator == '\\',
        dir.len() > 0,
        !parts_path(dir.last(), separator),
    ensures
        joined(dir, separator, name) == dir + seq![separator] + name,
        part_path_of(dir, separator, name) == dir + seq![separator] + (name + PART_SUFFIX@),
        forall|c: char| #[trigger]
            parts_path(c, separator) ==> !name.contains(c) && !(name + PART_SUFFIX@).contains(c),
{
    reveal_strlit(".bigpaw-part");
    assert(name.contains(name[0]));
    let s = name + PART_SUFFIX@;
    assert(s[0] == name[0]);
    assert forall|c: char| #[trigger] parts_path(c, separator) implies !name.contains(c)
        && !s.contains(c) by {
        assert forall|i: int| 0 <= i < s.len() implies #[trigger] s[i] != c by {
            if i < name.len() {
                assert(s[i] == name[i]);
                assert(name.contains(name[i]));
            } else {
                assert(s[i] == PART_SUFFIX@[i - name.len()]);
            }
        }
    }
    assert(parts_path('/', separator) && parts_path(separator, separator));
}

// ---------------------------------------------------------------------------
// Receiving, step by step
// ---------------------------------------------------------------------------

/// Whether a digest is the one that was announced.
pub fn check_digest(actual: String, expected: &str) -> (r: Result<(), XferError>)
    ensures
        r is Ok <==> actual@ == expected@,
        r matches Err(e) ==> (e matches XferError::Checksum { expected: x, actual: a } && x@
            == expected@ && a@ == actual@),
{
    if same_text(actual.as_str(), expected) {
        Ok(())
    } else {
        Err(XferError::Checksum { expected: owned(expected), actual })
    }
}

/// What is needed next.
#[derive(Debug, Clone, Copy, PartialEq, Eq, Structural)]
pub enum Want {
    /// This many bytes of the part file, for the digest.
    FromPart(usize),
    /// This many bytes of the sender, to be written behind the others.
    FromPeer(usize),
    /// Nothing: the file is complete.
    Nothing,
}

/// A file that is being received.
pub struct Receiving {
    digest: Blake3,
    expected: String,
    resume_to: u64,
    fed: u64,
    size: u64,
    done: u64,
}

/// A file that is being received, by the values that matter.
#[verifier::ext_equal]
pub struct ReceivingRow {
    /// The bytes that have gone into the digest.
    pub hashed: Seq<u8>,
    /// The digest that was announced.
    pub expected: Seq<char>,
    /// How much of the part file goes into the digest.
    pub resume_to: int,
    /// How much of the part file has gone into it.
    pub fed: int,
    /// The size of the file.
    pub size: int,
    /// How much of the file is there.
    pub done: int,
}

/// The lesser of a count and the most that is handled at once.
pub open spec fn at_most_chunk(n: int) -> int {
    if n < CHUNK {
        n
    } else {
        CHUNK as int
    }
}

/// What is needed next.
pub open spec fn wanted(s: ReceivingRow) -> Want {
    if s.fed < s.resume_to {
        Want::FromPart(at_most_chunk(s.resume_to - s.fed) as usize)
    } else if s.done < s.size {
        Want::FromPeer(at_most_chunk(s.size - s.done) as usize)
    } else {
        Want::Nothing
    }
}

/// How many bytes are needed next.
pub open spec fn count_of(w: Want) -> int {
    match w {
        Want::FromPart(n) => n as int,
        Want::FromPeer(n) => n as int,
        Want::Nothing => 0,
    }
}

/// The state after what was needed has come.
pub open spec fn after_chunk(s: ReceivingRow, chunk: Seq<u8>) -> ReceivingRow {
    match wanted(s) {
        Want::FromPart(n) => ReceivingRow {
            hashed: s.hashed + chunk,
            fed: s.fed + n,
            ..s
        },
        Want::FromPeer(n) => ReceivingRow {
            hashed: s.hashed + chunk,
            done: s.done + n,
            ..s
        },
        Want::Nothing => s,
    }
}

/// Whether a part file is gone on with.
pub open spec fn resumes(offset: int, part_exists: bool) -> bool {
    offset > 0 && part_exists
}

/// The state at the start.
pub open spec fn at_start(
    size: int,
    offset: int,
    expected: Seq<char>,
    part_exists: bool,
) -> ReceivingRow {
    ReceivingRow {
        hashed: Seq::empty(),
        expected,
        resume_to: if resumes(offset, part_exists) {
            offset
        } else {
            0
        },
        fed: 0,
        size,
        done: offset,
    }
}

fn min_chunk(n: u64) -> (r: usize)
    ensures
        r == at_most_chunk(n as int),
{
    if n < 1_048_576 {
        n as usize
    } else {
        CHUNK
    }
}

impl View for Receiving {
    type V = ReceivingRow;

    closed spec fn view(&self) -> ReceivingRow {
        ReceivingRow {
            hashed: self.digest@,
            expected: self.expected@,
            resume_to: self.resume_to as int,
            fed: self.fed as int,
            size: self.size as int,
            done: self.done as int,
        }
    }
}

impl Receiving {
    /// Starts to receive a file of a size, going on at an offset if there is a
    /// part file; without one, the part file is to be made anew.
    pub fn start(
        name: &str,
        size: u64,
        offset: u64,
        expected_blake3: &str,
        part_exists: bool,
    ) -> (r: Result<Self, XferError>)
        ensures
            r is Ok <==> is_plain_name(name@),
            r matches Ok(s) ==> s@ == at_start(
                size as int,
                offset as int,
                expected_blake3@,
                part_exists,
            ),
            r matches Err(e) ==> e is BadName,
    {
        if safe_basename(name).is_none() {
            return Err(XferError::BadName);
        }
        let resume_to: u64 = if offset > 0 && part_exists {
            offset
        } else {
            0
        };
        let r = Receiving {
            digest: Blake3::new(),
            expected: owned(expected_blake3),
            resume_to,
            fed: 0,
            size,
            done: offset,
        };
        assert(r@.hashed =~= Seq::<u8>::empty());
        Ok(r)
    }

    /// What is needed next.
    pub fn want(&self) -> (r: Want)
        ensures
            r == wanted(self@),
            r is FromPart ==> 1 <= count_of(r) <= self@.resume_to - self@.fed,
            r is FromPeer ==> 1 <= count_of(r) <= self@.size - self@.done,
    {
        if self.fed < self.resume_to {
            Want::FromPart(min_chunk(self.resume_to - self.fed))
        } else if self.done < self.size {
            Want::FromPeer(min_chunk(self.size - self.done))
        } else {
            Want::Nothing
        }
    }

    /// Takes in what was needed. What came from the sender is progress: how
    /// much of the file is there now.
    pub fn take(&mut self, chunk: &[u8]) -> (r: Option<u64>)
        requires
            wanted(old(self)@) !is Nothing,
            chunk@.len() == count_of(wanted(old(self)@)),
        ensures
            final(self)@ == after_chunk(old(self)@, chunk@),
            r is Some <==> wanted(old(self)@) is FromPeer,
            r matches Some(done) ==> done == final(self)@.done,
    {
        let ghost before = self@;
        let from_part = self.fed < self.resume_to;
        assert(1 <= chunk@.len());
        self.digest.update(chunk);
        if from_part {
            self.fed = self.fed + chunk.len() as u64;
            assert(self@ =~= after_chunk(before, chunk@));
            None
        } else {
            self.done = self.done + chunk.len() as u64;
            assert(self@ =~= after_chunk(before, chunk@));
            Some(self.done)
        }
    }

    /// Whether the complete file has the digest that was announced. If not, the
    /// part file stays where it is.
    pub fn finish(&self) -> (r: Result<(), XferError>)
        requires
            wanted(self@) is Nothing,
        ensures
            r is Ok <==> digest::blake3_hex(self@.hashed) == self@.expected,
            r matches Err(e) ==> (e matches XferError::Checksum { expected, actual } && expected@
                == self@.expected && actual@ == digest::blake3_hex(self@.hashed)),
    {
        check_digest(self.digest.hex(), self.expected.as_str())
    }
}

// ---------------------------------------------------------------------------
// Receiving as a whole
// ---------------------------------------------------------------------------

/// A file that was received.
#[derive(Debug, Clone, PartialEq, Eq)]
pub struct Received {
    /// Where the file was put.
    pub path: String,
    /// What it holds.
    pub contents: Vec<u8>,
}

/// What receiving leaves behind, whether or not the file was received.
#[derive(Debug, Clone, PartialEq, Eq)]
pub struct Intake {
    /// The part file, if there is one.
    pub part: Option<Vec<u8>>,
    /// How many of the bytes that were sent have been taken in.
    pub taken: usize,
    /// How much of the file was there after each piece.
    pub progress: Vec<u64>,
}

/// What receiving leaves behind, by value.
#[verifier::ext_equal]
pub struct IntakeRow {
    pub part: Option<Seq<u8>>,
    pub taken: int,
    pub progress: Seq<u64>,
}

/// The bytes of a part file, if there is one.
pub open spec fn part_bytes(part: Option<Vec<u8>>) -> Option<Seq<u8>> {
    match part {
        Some(v) => Some(v@),
        None => None,
    }
}

impl View for Intake {
    type V = IntakeRow;

    open spec fn view(&self) -> IntakeRow {
        IntakeRow {
            part: part_bytes(self.part),
            taken: self.taken as int,
            progress: self.progress@,
        }
    }
}

/// How many bytes the sender has to send.
pub open spec fn missing(size: int, offset: int) -> int {
    if offset < size {
        size - offset
    } else {
        0
    }
}

/// Whether a source ends before what is needed of it.
pub open spec fn runs_short(
    part: Option<Seq<u8>>,
    offset: int,
    size: int,
    sent: Seq<u8>,
) -> bool {
    ||| resumes(offset, part is Some) && part->0.len() < offset
    ||| sent.len() < missing(size, offset)
}

/// The bytes whose digest is taken: the part file up to the offset, and what
/// the sender sends.
pub open spec fn hashed_bytes(
    part: Option<Seq<u8>>,
    offset: int,
    size: int,
    sent: Seq<u8>,
) -> Seq<u8> {
    if resumes(offset, part is Some) {
        part->0.take(offset) + sent.take(missing(size, offset))
    } else {
        sent.take(missing(size, offset))
    }
}

/// A file after bytes were written over it from a position on.
pub open spec fn overwritten(base: Seq<u8>, at: int, b: Seq<u8>) -> Seq<u8> {
    if at + b.len() < base.len() {
        base.take(at) + b + base.skip(at + b.len())
    } else {
        base.take(at) + b
    }
}

/// The part file after bytes of the sender were written: behind the offset where
/// it is gone on with, else from the start of a file made anew.
pub open spec fn laid_down(part: Option<Seq<u8>>, offset: int, b: Seq<u8>) -> Seq<u8> {
    if resumes(offset, part is Some) {
        overwritten(part->0, offset, b)
    } else {
        b
    }
}

/// What the file holds in the end.
pub open spec fn contents_after(
    part: Option<Seq<u8>>,
    offset: int,
    size: int,
    sent: Seq<u8>,
) -> Seq<u8> {
    laid_down(part, offset, sent.take(missing(size, offset)))
}

/// How many bytes of the sender are taken in: all that are needed, or where the
/// sender ends before, the pieces that came whole. None, where the part file is
/// shorter than the offset.
pub open spec fn arrived(part: Option<Seq<u8>>, offset: int, size: int, sent: Seq<u8>) -> int {
    if resumes(offset, part is Some) && part->0.len() < offset {
        0
    } else if sent.len() < missing(size, offset) {
        sent.len() as int / CHUNK as int * CHUNK as int
    } else {
        missing(size, offset)
    }
}

/// What is left behind where the file did not come whole, or not as announced:
/// the part file holds all that arrived, unless it was shorter than the offset.
pub open spec fn left_behind(
    before: IntakeRow,
    offset: int,
    size: int,
    sent: Seq<u8>,
) -> IntakeRow {
    let n = arrived(before.part, offset, size, sent);
    IntakeRow {
        part: if resumes(offset, before.part is Some) && before.part->0.len() < offset {
            before.part
        } else {
            Some(laid_down(before.part, offset, sent.take(n)))
        },
        taken: n,
        progress: before.progress + progress_from(offset, offset + n),
    }
}

/// How much of the file is there after each piece.
pub open spec fn progress_from(done: int, size: int) -> Seq<u64>
    decreases size - done,
{
    if done < size {
        let next = done + at_most_chunk(size - done);
        seq![next as u64] + progress_from(next, size)
    } else {
        Seq::empty()
    }
}

proof fn lemma_progress_grows(done: int, now: int, n: int)
    requires
        done <= now,
        (now - done) % (CHUNK as int) == 0,
        0 < n <= CHUNK,
    ensures
        progress_from(done, now + n) == progress_from(done, now).push((now + n) as u64),
    decreases now - done,
{
    if done < now {
        assert(now - done >= CHUNK);
        lemma_progress_grows(done + CHUNK, now, n);
        assert(progress_from(done, now + n) =~= progress_from(done, now).push((now + n) as u64));
    } else {
        assert(progress_from(now + n, now + n) =~= Seq::<u64>::empty());
        assert(progress_from(done, now + n) =~= seq![(now + n) as u64]);
        assert(progress_from(done, now) =~= Seq::<u64>::empty());
    }
}

fn push_all(out: &mut Vec<u8>, b: &[u8])
    ensures
        final(out)@ == old(out)@ + b@,
{
    let ghost before = out@;
    let mut i: usize = 0;
    assert(b@.take(0) =~= Seq::<u8>::empty());
    assert(out@ =~= before + b@.take(0));
    while i < b.len()
        invariant
            i <= b.len(),
            out@ == before + b@.take(i as int),
        decreases b.len() - i,
    {
        out.push(b[i]);
        assert(b@.take(i + 1) =~= b@.take(i as int).push(b@[i as int]));
        i += 1;
    }
    assert(b@.take(b@.len() as int) =~= b@);
}

fn overwrite(base: &Vec<u8>, at: usize, b: &Vec<u8>) -> (r: Vec<u8>)
    requires
        at <= base@.len(),
    ensures
        r@ == overwritten(base@, at as int, b@),
{
    let mut out: Vec<u8> = Vec::new();
    push_all(&mut out, slice_subrange(base.as_slice(), 0, at));
    push_all(&mut out, b.as_slice());
    assert(out@ =~= base@.take(at as int) + b@);
    if b.len() < base.len() - at {
        push_all(&mut out, slice_subrange(base.as_slice(), at + b.len(), base.len()));
        assert(base@.subrange(at + b@.len(), base@.len() as int) =~= base@.skip(at + b@.len()));
    }
    assert(out@ =~= overwritten(base@, at as int, b@));
    out
}

fn short_read() -> (r: XferError)
    ensures
        r is Io,
{
    XferError::Io(owned("failed to fill whole buffer"))
}

/// Receives a file into a directory: `separator` is the one that the platform
/// writes in paths, `sent` what the sender sends. `intake` holds the file's part
/// file, if there is one, and what is left behind in the end. A received file is
/// the part file under the final name. Where the digest is not the one that was
/// announced, or the sender ends too early, the part file stays, and nothing is
/// put under the final name. A bad name leaves everything as it is.
pub fn receive_into(
    download_dir: &str,
    separator: char,
    name: &str,
    size: u64,
    offset: u64,
    expected_blake3: &str,
    sent: &[u8],
    intake: &mut Intake,
) -> (r: Result<Received, XferError>)
    ensures
        r matches Err(XferError::BadName) <==> !is_plain_name(name@),
        r matches Err(XferError::Io(_)) <==> is_plain_name(name@) && runs_short(
            old(intake)@.part,
            offset as int,
            size as int,
            sent@,
        ),
        r is Ok <==> is_plain_name(name@) && !runs_short(
            old(intake)@.part,
            offset as int,
            size as int,
            sent@,
        ) && digest::blake3_hex(
            hashed_bytes(old(intake)@.part, offset as int, size as int, sent@),
        ) == expected_blake3@,
        r matches Err(XferError::Checksum { expected, actual }) ==> expected@ == expected_blake3@
            && actual@ == digest::blake3_hex(
            hashed_bytes(old(intake)@.part, offset as int, size as int, sent@),
        ),
        match r {
            Ok(f) => {
                &&& f.path@ == joined(download_dir@, separator, name@)
                &&& f.contents@ == contents_after(
                    old(intake)@.part,
                    offset as int,
                    size as int,
                    sent@,
                )
                &&& final(intake)@ == (IntakeRow {
                    part: None,
                    ..left_behind(old(intake)@, offset as int, size as int, sent@)
                })
            },
            Err(XferError::BadName) => final(intake)@ == old(intake)@,
            Err(_) => final(intake)@ == left_behind(
                old(intake)@,
                offset as int,
                size as int,
                sent@,
            ),
        },
        r matches Err(XferError::Checksum { .. }) ==> final(intake)@.part == Some(
            contents_after(old(intake)@.part, offset as int, size as int, sent@),
        ),
{
    let mut state = match Receiving::start(
        name,
        size,
        offset,
        expected_blake3,
        intake.part.is_some(),
    ) {
        Ok(s) => s,
        Err(e) => {
            return Err(e);
        },
    };
    let ghost before = intake@;
    let ghost p = intake@.part;
    let ghost resumed = resumes(offset as int, p is Some);
    let ghost prefix = if resumed {
        offset as int
    } else {
        0
    };
    let ghost gone = missing(size as int, offset as int);
    let mut fed: usize = 0;
    let mut got: usize = 0;
    let mut collected: Vec<u8> = Vec::new();
    intake.taken = 0;
    proof {
        assert(sent@.take(0) =~= Seq::<u8>::empty());
        if resumed {
            assert(p->0.take(0) =~= Seq::<u8>::empty());
        }
        assert(progress_from(offset as int, offset as int) =~= Seq::<u64>::empty());
        assert(intake.progress@ =~= before.progress + progress_from(offset as int, offset as int));
    }
    let mut want = state.want();
    while want != Want::Nothing
        invariant
            want == wanted(state@),
            want is FromPart ==> 1 <= count_of(want) <= state@.resume_to - state@.fed,
            want is FromPeer ==> 1 <= count_of(want) <= state@.size - state@.done,
            p == part_bytes(intake.part),
            p == before.part,
            before == old(intake)@,
            is_plain_name(name@),
            resumed == resumes(offset as int, p is Some),
            prefix == (if resumed {
                offset as int
            } else {
                0
            }),
            gone == missing(size as int, offset as int),
            state@.expected == expected_blake3@,
            state@.resume_to == prefix,
            state@.size == size,
            state@.fed == fed,
            fed <= prefix,
            resumed ==> fed <= p->0.len(),
            state@.done == offset + got,
            got > 0 ==> fed == prefix,
            got <= gone,
            got <= sent@.len(),
            got == gone || got as int % CHUNK as int == 0,
            collected@ == sent@.take(got as int),
            state@.hashed == (if resumed {
                p->0.take(fed as int)
            } else {
                Seq::empty()
            }) + sent@.take(got as int),
            intake.taken == got,
            intake.progress@ == before.progress + progress_from(offset as int, offset + got),
        decreases prefix - fed + gone - got,
    {
        match want {
            Want::FromPart(n) => {
                let v: &Vec<u8> = match &intake.part {
                    Some(v) => v,
                    None => {
                        return Err(short_read());
                    },
                };
                if v.len() - fed < n {
                    assert(intake@ =~= left_behind(before, offset as int, size as int, sent@));
                    return Err(short_read());
                }
                let chunk = slice_subrange(v.as_slice(), fed, fed + n);
                let _ = state.take(chunk);
                proof {
                    assert(sent@.take(0) =~= Seq::<u8>::empty());
                    assert(p->0.take(fed + n) =~= p->0.take(fed as int) + chunk@);
                    assert(state@.hashed =~= p->0.take(fed + n) + sent@.take(got as int));
                }
                fed = fed + n;
            },
            Want::FromPeer(n) => {
                if sent.len() - got < n {
                    proof {
                        assert(sent@.len() < gone);
                        assert(got as int == sent@.len() as int / CHUNK as int * CHUNK as int);
                        assert(got == arrived(p, offset as int, size as int, sent@));
                    }
                    intake.part = Some(lay_down(&intake.part, offset, fed, collected));
                    assert(intake@ =~= left_behind(before, offset as int, size as int, sent@));
                    return Err(short_read());
                }
                let chunk = slice_subrange(sent, got, got + n);
                let step = state.take(chunk);
                push_all(&mut collected, chunk);
                proof {
                    assert(sent@.take(got + n) =~= sent@.take(got as int) + chunk@);
                    assert(state@.hashed =~= (if resumed {
                        p->0.take(fed as int)
                    } else {
                        Seq::empty()
                    }) + sent@.take(got + n));
                    lemma_progress_grows(offset as int, offset + got, n as int);
                }
                let ghost reported = intake.progress@;
                match step {
                    Some(done) => {
                        intake.progress.push(done);
                    },
                    None => {},
                }
                got = got + n;
                intake.taken = got;
                assert(intake.progress@ =~= before.progress + progress_from(
                    offset as int,
                    offset + got,
                ));
            },
            Want::Nothing => {},
        }
        want = state.want();
    }
    proof {
        assert(fed == prefix);
        assert(got == gone);
        assert(got == arrived(p, offset as int, size as int, sent@));
        assert(state@.hashed =~= hashed_bytes(p, offset as int, size as int, sent@));
    }
    let whole = lay_down(&intake.part, offset, fed, collected);
    match state.finish() {
        Ok(_) => {
            intake.part = None;
            assert(intake@ =~= (IntakeRow {
                part: None,
                ..left_behind(before, offset as int, size as int, sent@)
            }));
            Ok(Received { path: join_path(download_dir, separator, name), contents: whole })
        },
        Err(e) => {
            intake.part = Some(whole);
            assert(intake@ =~= left_behind(before, offset as int, size as int, sent@));
            Err(e)
        },
    }
}

fn lay_down(part: &Option<Vec<u8>>, offset: u64, at: usize, b: Vec<u8>) -> (r: Vec<u8>)
    requires
        resumes(offset as int, part is Some) ==> at == offset && at <= part->0@.len(),
    ensures
        r@ == laid_down(part_bytes(*part), offset as int, b@),
{
    match part {
        Some(v) => {
            if offset > 0 {
                overwrite(v, at, &b)
            } else {
                b
            }
        },
        None => b,
    }
}

/// Where the sender ends too early, the part file holds the beginning of the file,
/// and where it is gone on with, from its size on, the file becomes complete.
pub proof fn law_interrupted_receive_is_gone_on_with(
    file: Seq<u8>,
    offset: int,
    sent: Seq<u8>,
    before: IntakeRow,
)
    requires
        0 <= offset <= file.len(),
        before.part == (if offset == 0 {
            None
        } else {
            Some(file.take(offset))
        }),
        sent.len() < file.len() - offset,
        sent == file.subrange(offset, offset + sent.len()),
    ensures
        ({
            let n = arrived(before.part, offset, file.len() as int, sent);
            let part = left_behind(before, offset, file.len() as int, sent).part;
            &&& part == Some(file.take(offset + n))
            &&& contents_after(part, offset + n, file.len() as int, file.skip(offset + n)) == file
            &&& hashed_bytes(part, offset + n, file.len() as int, file.skip(offset + n)) == file
        }),
{
    let n = arrived(before.part, offset, file.len() as int, sent);
    assert(0 <= n <= sent.len());
    let laid = laid_down(before.part, offset, sent.take(n));
    assert(laid =~= file.take(offset + n));
    law_resuming_gives_the_same_file(file, offset + n);
    if offset + n == 0 {
        assert(file.skip(0) =~= file);
    }
}

/// Where the offset is the size of the part file, the file that is put in place
/// holds exactly the bytes whose digest was taken.
pub proof fn law_received_file_is_what_was_checked(
    part: Option<Seq<u8>>,
    offset: int,
    size: int,
    sent: Seq<u8>,
)
    requires
        0 <= size,
        !runs_short(part, offset, size, sent),
        offset == (match part {
            Some(b) => b.len() as int,
            None => 0,
        }),
    ensures
        contents_after(part, offset, size, sent) == hashed_bytes(part, offset, size, sent),
{
    if resumes(offset, part is Some) {
        let b = sent.take(missing(size, offset));
        assert(overwritten(part->0, offset, b) =~= part->0.take(offset) + b);
    }
}

/// A file that is gone on with is the same file in the end as one that is
/// received at once, and so is its digest.
pub proof fn law_resuming_gives_the_same_file(file: Seq<u8>, offset: int)
    requires
        0 <= offset <= file.len(),
    ensures
        contents_after(Some(file.take(offset)), offset, file.len() as int, file.skip(offset))
            == file,
        hashed_bytes(Some(file.take(offset)), offset, file.len() as int, file.skip(offset)) == file,
        contents_after(None, 0, file.len() as int, file) == file,
        hashed_bytes(None, 0, file.len() as int, file) == file,
{
    let part = file.take(offset);
    let rest = file.skip(offset);
    assert(rest.take(file.len() - offset) =~= rest);
    assert(part.take(offset) =~= part);
    assert(part + rest =~= file);
    assert(file.take(file.len() as int) =~= file);
    if offset == 0 {
        assert(rest =~= file);
    }
}

/// Progress grows, never by more than is handled at once, and ends at the size.
pub proof fn law_progress_ends_at_the_size(done: int, size: int)
    requires
        0 <= done < size <= u64::MAX,
    ensures
        progress_from(done, size).len() > 0,
        progress_from(done, size).last() == size,
        done < progress_from(done, size)[0] <= done + CHUNK,
        forall|i: int|
            0 < i < progress_from(done, size).len() ==> progress_from(done, size)[i - 1]
                < #[trigger] progress_from(done, size)[i] <= progress_from(done, size)[i - 1]
                + CHUNK,
    decreases size - done,
{
    let next = done + at_most_chunk(size - done);
    let s = progress_from(done, size);
    let t = progress_from(next, size);
    assert(s == seq![next as u64] + t);
    if next < size {
        law_progress_ends_at_the_size(next, size);
        assert(s.last() == t.last());
        assert forall|i: int| 0 < i < s.len() implies s[i - 1] < #[trigger] s[i] <= s[i - 1]
            + CHUNK by {
            assert(s[i] == t[i - 1]);
            if i > 1 {
                assert(s[i - 1] == t[i - 2]);
                assert(t[i - 1 - 1] < t[i - 1]);
            }
        }
    } else {
        assert(t =~= Seq::<u64>::empty());
        assert(s =~= seq![next as u64]);
    }
}

/// Receiving goes through all that is needed and through nothing else: first the part file up
/// to where it is gone on with, then the sender's bytes up to the size, never more at once
/// than is handled at once. Whatever comes goes into the digest, behind what came before,
/// and the announced digest and the size stay.
pub proof fn law_receiving_goes_through_everything(s: ReceivingRow, chunk: Seq<u8>)
    requires
        chunk.len() == count_of(wanted(s)),
        s.fed <= s.resume_to,
    ensures
        wanted(s) is Nothing <==> s.fed >= s.resume_to && s.done >= s.size,
        wanted(s) is FromPart <==> s.fed < s.resume_to,
        wanted(s) is FromPart ==> {
            &&& 0 < chunk.len() <= s.resume_to - s.fed
            &&& after_chunk(s, chunk).fed == s.fed + chunk.len()
            &&& after_chunk(s, chunk).done == s.done
        },
        wanted(s) is FromPeer ==> {
            &&& 0 < chunk.len() <= s.size - s.done
            &&& after_chunk(s, chunk).done == s.done + chunk.len()
            &&& after_chunk(s, chunk).fed == s.fed
        },
        chunk.len() <= CHUNK,
        after_chunk(s, chunk).hashed == s.hashed + chunk,
        after_chunk(s, chunk).expected == s.expected,
        after_chunk(s, chunk).size == s.size,
        after_chunk(s, chunk).resume_to == s.resume_to,
{
    if wanted(s) is Nothing {
        assert(s.hashed + chunk =~= s.hashed);
    }
}

/// At the start nothing has gone into the digest, all of the part file up to the offset is to
/// go into it where there is one, and what is missing of the size behind the offset is to
/// come from the sender.
pub proof fn law_receiving_starts_at_the_offset(
    size: int,
    offset: int,
    expected: Seq<char>,
    part_exists: bool,
)
    requires
        0 <= offset,
    ensures
        ({
            let s = at_start(size, offset, expected, part_exists);
            &&& s.hashed.len() == 0
            &&& s.expected == expected
            &&& s.size == size
            &&& s.done == offset
            &&& s.fed == 0
            &&& s.resume_to == (if part_exists {
                offset
            } else {
                0
            })
        }),
{
}

/// A file that is put into a directory whose path ends in a separator stands right behind it.
pub proof fn law_separator_is_not_doubled(dir: Seq<char>, separator: char, name: Seq<char>)
    requires
        is_plain_name(name),
        separator == '/' || separator == '\\',
        dir.len() == 0 || dir.last() == '/' || dir.last() == separator,
    ensures
        joined(dir, separator, name) == dir + name,
{
    assert(name.contains(name[0]));
}

/// A plain name is none of a directory, and holds no separator of any platform and no zero;
/// every name of letters, digits, dots, dashes and underscores is one, unless it is a dot
/// or two.
pub proof fn law_plain_names(name: Seq<char>)
    ensures
        is_plain_name(name) ==> name.len() > 0 && name != ".."@ && name != "."@ && forall|i: int|
            0 <= i < name.len() ==> #[trigger] name[i] != '/' && name[i] != '\\' && name[i]
                != '\u{0}',
        name.len() > 0 && name != ".."@ && name != "."@ && (forall|i: int|
            0 <= i < name.len() ==> ('a' <= #[trigger] name[i] <= 'z' || 'A' <= name[i] <= 'Z'
                || '0' <= name[i] <= '9' || name[i] == '.' || name[i] == '-' || name[i] == '_'))
            ==> is_plain_name(name),
{
    if is_plain_name(name) {
        assert forall|i: int| 0 <= i < name.len() implies #[trigger] name[i] != '/' && name[i]
            != '\\' && name[i] != '\u{0}' by {
            assert(name.contains(name[i]));
        }
    }
}

/// Receiving breaks off exactly if a part file that is gone on with is shorter than the offset,
/// or fewer bytes come than are missing; a file that is there already needs none.
pub proof fn law_when_a_source_runs_short(
    part: Option<Seq<u8>>,
    offset: int,
    size: int,
    sent: Seq<u8>,
)
    requires
        0 <= offset,
    ensures
        runs_short(part, offset, size, sent) <==> (part matches Some(b) && offset > 0 && b.len()
            < offset) || offset + sent.len() < size,
        offset >= size && part is None ==> !runs_short(part, offset, size, sent),
{
}

/// Of what comes before a break, whole pieces are taken in, as many as came whole, and each is
/// reported; where all came, exactly what was missing is taken in.
pub proof fn law_what_arrives_before_a_break(
    before: IntakeRow,
    offset: int,
    size: int,
    sent: Seq<u8>,
)
    requires
        0 <= offset,
        !(before.part matches Some(b) && offset > 0 && b.len() < offset),
    ensures
        ({
            let n = arrived(before.part, offset, size, sent);
            let left = left_behind(before, offset, size, sent);
            &&& 0 <= n <= sent.len()
            &&& offset + sent.len() < size ==> n % (CHUNK as int) == 0 && sent.len() - n < CHUNK
            &&& offset + sent.len() >= size ==> n == (if offset < size {
                size - offset
            } else {
                0
            })
            &&& left.taken == n
            &&& left.progress == before.progress + progress_from(offset, offset + n)
            &&& left.part is Some
        }),
{
    let m = sent.len() as int;
    let c = CHUNK as int;
    assert(0 <= m / c * c <= m && m - m / c * c < c && (m / c * c) % c == 0) by (nonlinear_arith)
        requires
            m >= 0,
            c == 1_048_576,
    ;
}

/// Bytes of the sender go behind the offset and nowhere else: what the part file holds before
/// the offset stays, the bytes follow, and what it holds behind them stays too. Without a
/// part file to go on with they are all there is.
pub proof fn law_bytes_go_behind_the_offset(part: Option<Seq<u8>>, offset: int, b: Seq<u8>)
    requires
        0 <= offset,
        part is Some ==> offset <= part->0.len(),
    ensures
        ({
            let after = laid_down(part, offset, b);
            &&& part is None || offset == 0 ==> after == b
            &&& part is Some && offset > 0 ==> {
                &&& after.take(offset) == part->0.take(offset)
                &&& after.subrange(offset, offset + b.len()) == b
                &&& after.skip(offset + b.len()) == (if offset + b.len() < part->0.len() {
                    part->0.skip(offset + b.len())
                } else {
                    Seq::empty()
                })
            }
        }),
{
    let after = laid_down(part, offset, b);
    if part is Some && offset > 0 {
        let before = part->0;
        assert(after.take(offset) =~= before.take(offset));
        assert(after.subrange(offset, offset + b.len()) =~= b);
        if offset + b.len() < before.len() {
            assert(after.skip(offset + b.len()) =~= before.skip(offset + b.len()));
        } else {
            assert(after.skip(offset + b.len()) =~= Seq::<u8>::empty());
        }
    }
}

/// Each piece is as large as is handled at once, but for the last, which ends at the size.
pub proof fn law_pieces_are_as_large_as_can_be(done: int, size: int)
    requires
        0 <= done < size <= u64::MAX,
    ensures
        progress_from(done, size).len() > 0,
        size - done > CHUNK ==> progress_from(done, size)[0] == done + CHUNK && progress_from(
            done,
            size,
        ).skip(1) == progress_from(done + CHUNK, size),
        size - done <= CHUNK ==> progress_from(done, size) == seq![size as u64],
{
    let all = progress_from(done, size);
    if size - done > CHUNK {
        assert(all.skip(1) =~= progress_from(done + CHUNK, size));
    } else {
        assert(progress_from(size, size) =~= Seq::<u64>::empty());
        assert(all =~= seq![size as u64]);
    }
}

} // verus!
