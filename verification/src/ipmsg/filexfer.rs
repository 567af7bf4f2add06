//! File transfer: the list of files in a message, requests for their content,
//! and the stream in which a directory is received.
//!
//! A list of files follows the message text after a zero:
//! `id:name:size:time:attributes:` for each file, numbers in hexadecimal, a
//! colon in a name doubled, files separated by the BEL character. A request
//! for content is `packet:file:offset`. A directory comes as a stream of
//! entries `header-size:name:size:attributes:` with the content behind each,
//! where the header size counts from the start of the entry up to the last
//! colon before the content. An entry can also go down into a directory or
//! back up to its parent.

use crate::ipmsg::command;
use crate::ipmsg::command::{Command, GETFILEDATA};
use crate::ipmsg::proto;
use crate::ipmsg::proto::Packet;
use crate::numeral;
use crate::numeral::{push_numeral, read_number};
use crate::split;
use crate::text;
use crate::text::{
    chars_of, code_of, contains_char, find_from, owned, same_text, substring,
    to_ascii_lowercase,
};
use vstd::prelude::*;
use vstd::string::StringExecFns;

verus! {

/// Attribute of an ordinary file; the low byte of the attributes is one of these three.
pub const FILE_REGULAR: u32 = 0x01;

/// Attribute of a directory.
pub const FILE_DIR: u32 = 0x02;

/// Attribute of the entry that goes back to the parent directory.
pub const FILE_RETPARENT: u32 = 0x03;

/// A file or directory that was offered.
#[derive(Debug, Clone, PartialEq, Eq)]
pub struct IpmsgFileEntry {
    pub file_id: u32,
    pub name: String,
    pub size: u64,
    pub is_dir: bool,
}

/// An offered file by the values that it holds.
#[verifier::ext_equal]
pub struct FileRow {
    pub file_id: u32,
    pub name: Seq<char>,
    pub size: u64,
    pub is_dir: bool,
}

impl View for IpmsgFileEntry {
    type V = FileRow;

    open spec fn view(&self) -> FileRow {
        FileRow {
            file_id: self.file_id,
            name: self.name@,
            size: self.size,
            is_dir: self.is_dir,
        }
    }
}

/// Offered files by their values.
pub open spec fn file_rows(v: Seq<IpmsgFileEntry>) -> Seq<FileRow> {
    v.map_values(|e: IpmsgFileEntry| e@)
}

// ---------------------------------------------------------------------------
// Fields with doubled colons
// ---------------------------------------------------------------------------

/// Text with every colon doubled.
pub open spec fn escaped(s: Seq<char>) -> Seq<char>
    decreases s.len(),
{
    if s.len() == 0 {
        Seq::empty()
    } else if s[0] == ':' {
        seq![':', ':'] + escaped(s.skip(1))
    } else {
        seq![s[0]] + escaped(s.skip(1))
    }
}

/// `c` put in front of the first field.
pub open spec fn with_first(c: char, fields: Seq<Seq<char>>) -> Seq<Seq<char>> {
    seq![seq![c] + fields[0]] + fields.skip(1)
}

/// The fields of a text: a single colon parts them, a doubled one stands for a colon.
pub open spec fn escaped_fields(s: Seq<char>) -> Seq<Seq<char>>
    decreases s.len(),
{
    if s.len() == 0 {
        seq![Seq::empty()]
    } else if s[0] != ':' {
        with_first(s[0], escaped_fields(s.skip(1)))
    } else if s.len() > 1 && s[1] == ':' {
        with_first(':', escaped_fields(s.skip(2)))
    } else {
        seq![Seq::<char>::empty()] + escaped_fields(s.skip(1))
    }
}

proof fn lemma_some_field(s: Seq<char>)
    ensures
        escaped_fields(s).len() >= 1,
    decreases s.len(),
{
    if s.len() > 0 {
        if s[0] != ':' {
            lemma_some_field(s.skip(1));
        } else if s.len() > 1 && s[1] == ':' {
            lemma_some_field(s.skip(2));
        } else {
            lemma_some_field(s.skip(1));
        }
    }
}

/// A text with its colons doubled, a colon and a rest that does not begin with
/// one are read as the text and the fields of the rest.
pub proof fn law_escaped_field(s: Seq<char>, rest: Seq<char>)
    requires
        rest.len() == 0 || rest[0] != ':',
    ensures
        escaped_fields(escaped(s) + seq![':'] + rest) == seq![s] + escaped_fields(rest),
        escaped_fields(escaped(s)) == seq![s],
    decreases s.len(),
{
    let e = escaped(s);
    let all = e + seq![':'] + rest;
    if s.len() == 0 {
        assert(all =~= seq![':'] + rest);
        assert(all.skip(1) =~= rest);
        assert(s =~= Seq::<char>::empty());
    } else {
        let t = s.skip(1);
        law_escaped_field(t, rest);
        let inner = escaped(t) + seq![':'] + rest;
        assert(seq![s[0]] + t =~= s);
        if s[0] == ':' {
            assert(all =~= seq![':', ':'] + inner);
            assert(all.skip(2) =~= inner);
            assert(e.skip(2) =~= escaped(t));
        } else {
            assert(all =~= seq![s[0]] + inner);
            assert(all.skip(1) =~= inner);
            assert(e.skip(1) =~= escaped(t));
        }
        assert(escaped_fields(all) =~= with_first(s[0], seq![t] + escaped_fields(rest)));
        assert(with_first(s[0], seq![t] + escaped_fields(rest)) =~= seq![s] + escaped_fields(
            rest,
        ));
        assert(with_first(s[0], seq![t]) =~= seq![s]);
    }
}

/// Doubles every colon.
pub fn escape_colon(s: &str) -> (r: String)
    ensures
        r@ == escaped(s@),
{
    let v: Vec<char> = chars_of(s);
    let mut r: String = String::new();
    let mut i: usize = 0;
    proof {
        assert(s@.skip(0) =~= s@);
        assert(r@ + escaped(s@) =~= escaped(s@));
    }
    while i < v.len()
        invariant
            i <= v.len(),
            v@ == s@,
            r@ + escaped(s@.skip(i as int)) == escaped(s@),
        decreases v.len() - i,
    {
        let c: char = v[i];
        let ghost before = r@;
        let ghost rest = s@.skip(i as int);
        if c == ':' {
            r.push(':');
        }
        r.push(c);
        proof {
            assert(rest[0] == c);
            assert(rest.skip(1) =~= s@.skip(i + 1));
            assert(r@ + escaped(s@.skip(i + 1)) =~= before + escaped(rest));
        }
        i = i + 1;
    }
    proof {
        assert(s@.skip(i as int) =~= Seq::<char>::empty());
        assert(r@ + Seq::<char>::empty() =~= r@);
    }
    r
}

/// The fields read so far, the one being read, and what is still to come.
spec fn fields_with(done: Seq<Seq<char>>, current: Seq<char>, rest: Seq<Seq<char>>) -> Seq<
    Seq<char>,
> {
    done + seq![current + rest[0]] + rest.skip(1)
}

/// The fields of a text.
pub fn split_escaped_fields(s: &str) -> (r: Vec<String>)
    ensures
        text::texts(r@) == escaped_fields(s@),
{
    let v: Vec<char> = chars_of(s);
    let mut fields: Vec<String> = Vec::new();
    let mut current: String = String::new();
    let mut i: usize = 0;
    proof {
        lemma_some_field(s@);
        assert(s@.skip(0) =~= s@);
        assert(fields_with(text::texts(fields@), current@, escaped_fields(s@)) =~= escaped_fields(
            s@,
        ));
    }
    while i < v.len()
        invariant
            i <= v.len(),
            v@ == s@,
            fields_with(text::texts(fields@), current@, escaped_fields(s@.skip(i as int)))
                == escaped_fields(s@),
        decreases v.len() - i,
    {
        let c: char = v[i];
        let ghost rest = s@.skip(i as int);
        let ghost done = fields@;
        let ghost cur = current@;
        proof {
            assert(rest[0] == c);
            assert(rest.skip(1) =~= s@.skip(i + 1));
            lemma_some_field(rest);
            lemma_some_field(rest.skip(1));
            if i + 1 < v.len() {
                assert(rest[1] == v@[i + 1]);
                assert(rest.skip(2) =~= s@.skip(i + 2));
                lemma_some_field(rest.skip(2));
            }
        }
        if c != ':' {
            current.push(c);
            proof {
                assert(cur.push(c) + escaped_fields(rest.skip(1))[0] =~= cur + escaped_fields(
                    rest,
                )[0]);
                assert(fields_with(text::texts(fields@), current@, escaped_fields(rest.skip(1)))
                    =~= fields_with(text::texts(done), cur, escaped_fields(rest)));
            }
            i = i + 1;
        } else if i + 1 < v.len() && v[i + 1] == ':' {
            current.push(':');
            proof {
                assert(cur.push(':') + escaped_fields(rest.skip(2))[0] =~= cur + escaped_fields(
                    rest,
                )[0]);
                assert(fields_with(text::texts(fields@), current@, escaped_fields(rest.skip(2)))
                    =~= fields_with(text::texts(done), cur, escaped_fields(rest)));
            }
            i = i + 2;
        } else {
            fields.push(current);
            current = String::new();
            proof {
                assert(text::texts(fields@) =~= text::texts(done).push(cur));
                assert(cur + Seq::<char>::empty() =~= cur);
                assert(current@ + escaped_fields(rest.skip(1))[0] =~= escaped_fields(
                    rest.skip(1),
                )[0]);
                assert(fields_with(text::texts(fields@), current@, escaped_fields(rest.skip(1)))
                    =~= fields_with(text::texts(done), cur, escaped_fields(rest)));
            }
            i = i + 1;
        }
    }
    let ghost done = fields@;
    let ghost cur = current@;
    fields.push(current);
    proof {
        assert(s@.skip(i as int) =~= Seq::<char>::empty());
        assert(cur + Seq::<char>::empty() =~= cur);
        assert(text::texts(fields@) =~= text::texts(done).push(cur));
        assert(fields_with(text::texts(done), cur, seq![Seq::<char>::empty()]) =~= text::texts(
            fields@,
        ));
    }
    fields
}

// ---------------------------------------------------------------------------
// Safe file names
// ---------------------------------------------------------------------------

/// Whether the character changes the direction of text, which can disguise a name.
pub open spec fn is_bidi_control(c: char) -> bool {
    0x202A <= c as int <= 0x202E || 0x2066 <= c as int <= 0x2069
}

/// Whether some character changes the direction of text.
pub open spec fn has_bidi_control(s: Seq<char>) -> bool {
    exists|i: int| 0 <= i < s.len() && is_bidi_control(#[trigger] s[i])
}

/// Whether the text is the name of a device on Windows, in either case.
pub open spec fn is_device_name(s: Seq<char>) -> bool {
    let l = text::lower_text(s);
    ||| l == "con"@
    ||| l == "prn"@
    ||| l == "aux"@
    ||| l == "nul"@
    ||| l == "com1"@
    ||| l == "com2"@
    ||| l == "com3"@
    ||| l == "com4"@
    ||| l == "com5"@
    ||| l == "com6"@
    ||| l == "com7"@
    ||| l == "com8"@
    ||| l == "com9"@
    ||| l == "lpt1"@
    ||| l == "lpt2"@
    ||| l == "lpt3"@
    ||| l == "lpt4"@
    ||| l == "lpt5"@
    ||| l == "lpt6"@
    ||| l == "lpt7"@
    ||| l == "lpt8"@
    ||| l == "lpt9"@
}

/// Whether a name can be used for a file: it leads nowhere else, and is no
/// name that Windows takes for something different.
pub open spec fn is_safe_name(s: Seq<char>) -> bool {
    &&& s.len() > 0
    &&& s != seq!['.', '.']
    &&& s != seq!['.']
    &&& !s.contains('/')
    &&& !s.contains('\\')
    &&& !s.contains('\u{0}')
    &&& !s.contains(':')
    &&& s.last() != '.'
    &&& s.last() != ' '
    &&& !has_bidi_control(s)
    &&& !is_device_name(split::split_at_char(s, '.')[0])
}

/// Whether some character changes the direction of text.
pub fn contains_bidi_control(name: &str) -> (r: bool)
    ensures
        r == has_bidi_control(name@),
{
    let v: Vec<char> = chars_of(name);
    let mut i: usize = 0;
    while i < v.len()
        invariant
            i <= v.len(),
            v@ == name@,
            forall|j: int| 0 <= j < i ==> !is_bidi_control(#[trigger] v@[j]),
        decreases v.len() - i,
    {
        let u: u32 = code_of(v[i]);
        if (0x202A <= u && u <= 0x202E) || (0x2066 <= u && u <= 0x2069) {
            assert(is_bidi_control(name@[i as int]));
            return true;
        }
        i = i + 1;
    }
    false
}

fn device_name(s: &str) -> (r: bool)
    ensures
        r == is_device_name(s@),
{
    let l: String = to_ascii_lowercase(s);
    same_text(&l, "con") || same_text(&l, "prn") || same_text(&l, "aux") || same_text(&l, "nul")
        || same_text(&l, "com1") || same_text(&l, "com2") || same_text(&l, "com3") || same_text(
        &l,
        "com4",
    ) || same_text(&l, "com5") || same_text(&l, "com6") || same_text(&l, "com7") || same_text(
        &l,
        "com8",
    ) || same_text(&l, "com9") || same_text(&l, "lpt1") || same_text(&l, "lpt2") || same_text(
        &l,
        "lpt3",
    ) || same_text(&l, "lpt4") || same_text(&l, "lpt5") || same_text(&l, "lpt6") || same_text(
        &l,
        "lpt7",
    ) || same_text(&l, "lpt8") || same_text(&l, "lpt9")
}

/// The name, if it can be used for a file.
pub fn safe_basename(name: &str) -> (r: Option<String>)
    ensures
        match r {
            Some(s) => is_safe_name(name@) && s@ == name@,
            None => !is_safe_name(name@),
        },
{
    let v: Vec<char> = chars_of(name);
    let n: usize = v.len();
    proof {
        if n == 2 && v@[0] == '.' && v@[1] == '.' {
            assert(name@ =~= seq!['.', '.']);
        }
        if n == 1 && v@[0] == '.' {
            assert(name@ =~= seq!['.']);
        }
    }
    if n == 0 || (n == 2 && v[0] == '.' && v[1] == '.') || (n == 1 && v[0] == '.') {
        return None;
    }
    if contains_char(name, '/') || contains_char(name, '\\') || contains_char(name, '\u{0}') {
        return None;
    }
    if contains_char(name, ':') {
        return None;
    }
    if v[n - 1] == '.' || v[n - 1] == ' ' {
        return None;
    }
    if contains_bidi_control(name) {
        return None;
    }
    let at: usize = find_from(&v, 0, '.');
    let stem: String = substring(&v, 0, at);
    proof {
        assert(name@.skip(0) =~= name@);
        let p = split::split_at_char(name@, '.');
        if at < n {
            assert(p[0] == name@.take(at as int));
            assert(stem@ =~= name@.take(at as int));
        } else {
            assert(p[0] == name@);
            assert(stem@ =~= name@);
        }
    }
    if device_name(&stem) {
        return None;
    }
    Some(owned(name))
}

// ---------------------------------------------------------------------------
// Lists of offered files
// ---------------------------------------------------------------------------

/// The entry for one file in a list.
pub open spec fn file_entry_text(
    file_id: u32,
    name: Seq<char>,
    size: u64,
    mtime: u64,
    fileattr: u32,
) -> Seq<char> {
    numeral::hexadecimal(file_id as nat) + seq![':'] + (escaped(name) + seq![':'] + (
    numeral::hexadecimal(size as nat) + seq![':'] + (numeral::hexadecimal(mtime as nat) + seq![':']
        + (numeral::hexadecimal(fileattr as nat) + seq![':']))))
}

/// The file that an entry stands for: at least five fields, sound numbers and
/// a safe name.
pub open spec fn file_of_entry(chunk: Seq<char>) -> Option<FileRow> {
    let f = escaped_fields(chunk);
    if f.len() < 5 {
        None
    } else {
        match (
            numeral::parse_number(f[0], 16, u32::MAX as nat),
            numeral::parse_number(f[2], 16, u64::MAX as nat),
            numeral::parse_number(f[3], 16, u64::MAX as nat),
            numeral::parse_number(f[4], 16, u32::MAX as nat),
        ) {
            (Some(id), Some(size), Some(_), Some(attr)) => if is_safe_name(f[1]) {
                Some(
                    FileRow {
                        file_id: id as u32,
                        name: f[1],
                        size: size as u64,
                        is_dir: (attr as u32) & 0xff == FILE_DIR,
                    },
                )
            } else {
                None
            },
            _ => None,
        }
    }
}

/// The files of the sound entries, in order.
pub open spec fn files_of_entries(chunks: Seq<Seq<char>>) -> Seq<FileRow>
    decreases chunks.len(),
{
    if chunks.len() == 0 {
        Seq::empty()
    } else {
        let before = files_of_entries(chunks.drop_last());
        if chunks.last().len() == 0 {
            before
        } else {
            match file_of_entry(chunks.last()) {
                Some(f) => before.push(f),
                None => before,
            }
        }
    }
}

/// The message text and the files in the extra field of a message with files.
pub open spec fn attachment_of(extra: Seq<char>) -> (Seq<char>, Seq<FileRow>) {
    match split::split_once_at(extra, '\u{0}') {
        None => (extra, Seq::empty()),
        Some((body, list)) => (body, files_of_entries(split::split_at_char(list, '\u{7}'))),
    }
}

/// The extra field that offers one file.
pub fn build_file_offer_extra(
    msg_body: &str,
    file_id: u32,
    name: &str,
    size: u64,
    mtime: u64,
    fileattr: u32,
) -> (r: String)
    ensures
        r@ == msg_body@ + seq!['\u{0}'] + file_entry_text(file_id, name@, size, mtime, fileattr),
{
    let mut s: String = owned(msg_body);
    s.push('\u{0}');
    push_numeral(&mut s, file_id as u128, 16);
    s.push(':');
    s.append(&escape_colon(name));
    s.push(':');
    push_numeral(&mut s, size as u128, 16);
    s.push(':');
    push_numeral(&mut s, mtime as u128, 16);
    s.push(':');
    push_numeral(&mut s, fileattr as u128, 16);
    s.push(':');
    assert(s@ =~= msg_body@ + seq!['\u{0}'] + file_entry_text(
        file_id,
        name@,
        size,
        mtime,
        fileattr,
    ));
    s
}

/// The file that an entry stands for.
pub fn parse_one_file_entry(chunk: &str) -> (r: Option<IpmsgFileEntry>)
    ensures
        match r {
            Some(e) => file_of_entry(chunk@) == Some(e@),
            None => file_of_entry(chunk@) is None,
        },
{
    let f: Vec<String> = split_escaped_fields(chunk);
    let ghost fields = escaped_fields(chunk@);
    proof {
        assert(f@.len() == fields.len());
        assert(forall|i: int| 0 <= i < fields.len() ==> fields[i] == (#[trigger] f@[i])@);
    }
    if f.len() < 5 {
        return None;
    }
    let file_id: Option<u64> = read_number(&f[0], 16, u32::MAX as u64);
    let name: Option<String> = safe_basename(&f[1]);
    let size: Option<u64> = read_number(&f[2], 16, u64::MAX);
    let mtime: Option<u64> = read_number(&f[3], 16, u64::MAX);
    let attr: Option<u64> = read_number(&f[4], 16, u32::MAX as u64);
    match (file_id, name, size, mtime, attr) {
        (Some(file_id), Some(name), Some(size), Some(_), Some(attr)) => {
            let e: IpmsgFileEntry = IpmsgFileEntry {
                file_id: file_id as u32,
                name,
                size,
                is_dir: (attr as u32) & 0xff == FILE_DIR,
            };
            proof {
                assert(file_of_entry(chunk@) == Some(e@));
            }
            Some(e)
        },
        _ => None,
    }
}

/// The message text and the offered files in the extra field of a message.
/// Entries that are not sound are left out.
pub fn parse_file_attach_extra(extra: &str) -> (r: (String, Vec<IpmsgFileEntry>))
    ensures
        (r.0@, file_rows(r.1@)) == attachment_of(extra@),
{
    let none: Vec<IpmsgFileEntry> = Vec::new();
    match split::split_once(extra, '\u{0}') {
        None => {
            proof {
                assert(file_rows(none@) =~= Seq::<FileRow>::empty());
            }
            (owned(extra), none)
        },
        Some((body, list)) => {
            let chunks: Vec<String> = split::split(&list, '\u{7}');
            let ghost all = text::texts(chunks@);
            let mut files: Vec<IpmsgFileEntry> = none;
            let mut i: usize = 0;
            proof {
                assert(all.take(0) =~= Seq::<Seq<char>>::empty());
                assert(file_rows(files@) =~= Seq::<FileRow>::empty());
            }
            while i < chunks.len()
                invariant
                    i <= chunks.len(),
                    all == text::texts(chunks@),
                    file_rows(files@) == files_of_entries(all.take(i as int)),
                decreases chunks.len() - i,
            {
                proof {
                    assert(all.take(i + 1).drop_last() =~= all.take(i as int));
                    assert(all.take(i + 1).last() == chunks@[i as int]@);
                }
                let ghost before = files@;
                if !chunks[i].as_str().is_empty() {
                    if let Some(e) = parse_one_file_entry(&chunks[i]) {
                        files.push(e);
                        proof {
                            assert(file_rows(files@) =~= file_rows(before).push(e@));
                        }
                    }
                }
                i = i + 1;
            }
            proof {
                assert(all.take(i as int) =~= all);
            }
            (body, files)
        },
    }
}

/// An offered file is read back from the extra field as it was, if its name is
/// safe and free of the separator, and the message text holds no zero.
pub proof fn law_file_offer_round_trip(
    body: Seq<char>,
    file_id: u32,
    name: Seq<char>,
    size: u64,
    mtime: u64,
    fileattr: u32,
)
    requires
        !body.contains('\u{0}'),
        is_safe_name(name),
        !name.contains('\u{7}'),
    ensures
        attachment_of(
            body + seq!['\u{0}'] + file_entry_text(file_id, name, size, mtime, fileattr),
        ) == (
            body,
            seq![
                FileRow { file_id, name, size, is_dir: fileattr & 0xff == FILE_DIR },
            ],
        ),
{
    let entry = file_entry_text(file_id, name, size, mtime, fileattr);
    split::lemma_split_piece(body, '\u{0}', entry);
    let h0 = numeral::hexadecimal(file_id as nat);
    let h2 = numeral::hexadecimal(size as nat);
    let h3 = numeral::hexadecimal(mtime as nat);
    let h4 = numeral::hexadecimal(fileattr as nat);
    numeral::lemma_numeral_value(file_id as nat, 16);
    numeral::lemma_numeral_value(size as nat, 16);
    numeral::lemma_numeral_value(mtime as nat, 16);
    numeral::lemma_numeral_value(fileattr as nat, 16);
    let none = Seq::<char>::empty();
    let r4 = h4 + seq![':'];
    let r3 = h3 + seq![':'] + r4;
    let r2 = h2 + seq![':'] + r3;
    let r1 = escaped(name) + seq![':'] + r2;
    lemma_escaped_clean(h0);
    lemma_escaped_clean(h2);
    lemma_escaped_clean(h3);
    lemma_escaped_clean(h4);
    assert(r4 =~= h4 + seq![':'] + none);
    law_escaped_field(h4, none);
    law_escaped_field(h3, r4);
    law_escaped_field(h2, r3);
    law_escaped_field(name, r2);
    assert(r1.len() > 0 && r1[0] != ':') by {
        lemma_escaped_start(name);
    }
    law_escaped_field(h0, r1);
    let f = escaped_fields(entry);
    assert(f =~= seq![h0, name, h2, h3, h4, none]);
    numeral::lemma_parse_numeral(file_id as nat, 16, u32::MAX as nat);
    numeral::lemma_parse_numeral(size as nat, 16, u64::MAX as nat);
    numeral::lemma_parse_numeral(mtime as nat, 16, u64::MAX as nat);
    numeral::lemma_parse_numeral(fileattr as nat, 16, u32::MAX as nat);
    assert(!entry.contains('\u{7}')) by {
        lemma_escaped_no_bell(name);
        if entry.contains('\u{7}') {
            let i = choose|i: int| 0 <= i < entry.len() && entry[i] == '\u{7}';
            let a = h0.len() as int;
            let b = a + 1 + escaped(name).len();
            let c = b + 1 + h2.len();
            let d = c + 1 + h3.len();
            let e = d + 1 + h4.len();
            if i < a {
                assert(entry[i] == h0[i]);
            } else if i == a {
            } else if i < b {
                assert(entry[i] == escaped(name)[i - a - 1]);
            } else if i == b {
            } else if i < c {
                assert(entry[i] == h2[i - b - 1]);
            } else if i == c {
            } else if i < d {
                assert(entry[i] == h3[i - c - 1]);
            } else if i == d {
            } else if i < e {
                assert(entry[i] == h4[i - d - 1]);
            }
        }
    }
    split::lemma_split_last(entry, '\u{7}');
    let row = FileRow { file_id, name, size, is_dir: fileattr & 0xff == FILE_DIR };
    assert(file_of_entry(entry) == Some(row));
    let chunks = seq![entry];
    assert(chunks.drop_last() =~= Seq::<Seq<char>>::empty());
    assert(chunks.last() == entry);
    assert(entry.len() > 0);
    assert(files_of_entries(chunks.drop_last()) == Seq::<FileRow>::empty());
    assert(files_of_entries(chunks) =~= seq![row]);
}

/// Text without colons is the same when escaped.
proof fn lemma_escaped_clean(s: Seq<char>)
    requires
        forall|i: int| 0 <= i < s.len() ==> #[trigger] s[i] != ':',
    ensures
        escaped(s) == s,
    decreases s.len(),
{
    if s.len() > 0 {
        assert forall|i: int| 0 <= i < s.skip(1).len() implies #[trigger] s.skip(1)[i] != ':' by {
            assert(s.skip(1)[i] == s[i + 1]);
        }
        lemma_escaped_clean(s.skip(1));
        assert(seq![s[0]] + s.skip(1) =~= s);
    } else {
        assert(escaped(s) =~= s);
    }
}

/// A text that does not begin with a colon does not do so when escaped.
proof fn lemma_escaped_start(s: Seq<char>)
    requires
        s.len() > 0,
        !s.contains(':'),
    ensures
        escaped(s).len() > 0,
        escaped(s)[0] != ':',
{
    assert(s.contains(s[0]));
}

/// Escaping brings in no separator.
proof fn lemma_escaped_no_bell(s: Seq<char>)
    requires
        !s.contains('\u{7}'),
    ensures
        !escaped(s).contains('\u{7}'),
    decreases s.len(),
{
    if s.len() > 0 {
        assert forall|i: int| 0 <= i < s.skip(1).len() implies s.skip(1)[i] != '\u{7}' by {
            assert(s.skip(1)[i] == s[i + 1]);
        }
        lemma_escaped_no_bell(s.skip(1));
        let e = escaped(s);
        let t = escaped(s.skip(1));
        let k = if s[0] == ':' { 2int } else { 1int };
        if e.contains('\u{7}') {
            let i = choose|i: int| 0 <= i < e.len() && e[i] == '\u{7}';
            if i >= k {
                assert(e[i] == t[i - k]);
            } else {
                assert(s.contains(s[0]));
            }
        }
    }
}

// ---------------------------------------------------------------------------
// Requests for content
// ---------------------------------------------------------------------------

/// The extra field of a request.
pub open spec fn request_text(packet_no: u32, file_id: u32, offset: u64) -> Seq<char> {
    numeral::hexadecimal(packet_no as nat) + seq![':'] + (numeral::hexadecimal(file_id as nat)
        + seq![':'] + numeral::hexadecimal(offset as nat))
}

/// What a request asks for: packet, file and offset.
pub open spec fn request_of(extra: Seq<char>) -> Option<(u32, u32, u64)> {
    let f = split::split_at_char(extra, ':');
    if f.len() < 3 {
        None
    } else {
        match (
            numeral::parse_number(f[0], 16, u32::MAX as nat),
            numeral::parse_number(f[1], 16, u32::MAX as nat),
            numeral::parse_number(f[2], 16, u64::MAX as nat),
        ) {
            (Some(p), Some(i), Some(o)) => Some((p as u32, i as u32, o as u64)),
            _ => None,
        }
    }
}

/// The extra field of a request, in hexadecimal.
pub fn build_getfiledata_extra(target_packet_no: u32, file_id: u32, offset: u64) -> (r: String)
    ensures
        r@ == request_text(target_packet_no, file_id, offset),
{
    let mut s: String = String::new();
    push_numeral(&mut s, target_packet_no as u128, 16);
    s.push(':');
    push_numeral(&mut s, file_id as u128, 16);
    s.push(':');
    push_numeral(&mut s, offset as u128, 16);
    assert(s@ =~= request_text(target_packet_no, file_id, offset));
    s
}

/// What a request asks for: packet, file and offset.
pub fn parse_getfiledata_extra(extra: &str) -> (r: Option<(u32, u32, u64)>)
    ensures
        r == request_of(extra@),
{
    let f: Vec<String> = split::split(extra, ':');
    let ghost fields = split::split_at_char(extra@, ':');
    proof {
        assert(f@.len() == fields.len());
        assert(forall|i: int| 0 <= i < fields.len() ==> fields[i] == (#[trigger] f@[i])@);
    }
    if f.len() < 3 {
        return None;
    }
    let packet_no: Option<u64> = read_number(&f[0], 16, u32::MAX as u64);
    let file_id: Option<u64> = read_number(&f[1], 16, u32::MAX as u64);
    let offset: Option<u64> = read_number(&f[2], 16, u64::MAX);
    match (packet_no, file_id, offset) {
        (Some(p), Some(i), Some(o)) => Some((p as u32, i as u32, o)),
        _ => None,
    }
}

/// A request is read back as it was written.
#[verifier::spinoff_prover]
pub proof fn law_request_round_trip(packet_no: u32, file_id: u32, offset: u64)
    ensures
        request_of(request_text(packet_no, file_id, offset)) == Some((packet_no, file_id, offset)),
{
    let a = numeral::hexadecimal(packet_no as nat);
    let b = numeral::hexadecimal(file_id as nat);
    let c = numeral::hexadecimal(offset as nat);
    numeral::lemma_numeral_value(packet_no as nat, 16);
    numeral::lemma_numeral_value(file_id as nat, 16);
    numeral::lemma_numeral_value(offset as nat, 16);
    assert(!a.contains(':'));
    assert(!b.contains(':'));
    assert(!c.contains(':'));
    split::lemma_split_piece(a, ':', b + seq![':'] + c);
    split::lemma_split_piece(b, ':', c);
    split::lemma_split_last(c, ':');
    assert(split::split_at_char(request_text(packet_no, file_id, offset), ':') =~= seq![a, b, c]);
    numeral::lemma_parse_numeral(packet_no as nat, 16, u32::MAX as nat);
    numeral::lemma_parse_numeral(file_id as nat, 16, u32::MAX as nat);
    numeral::lemma_parse_numeral(offset as nat, 16, u64::MAX as nat);
}

/// A file that others may fetch.
#[derive(Debug, Clone, PartialEq, Eq)]
pub struct OfferedFile {
    pub packet_no: u32,
    pub file_id: u32,
    pub path: String,
}

/// The files that others may fetch, by packet and file number. Nothing else is
/// ever handed out.
#[derive(Debug)]
pub struct OfferedFiles {
    files: Vec<OfferedFile>,
}

/// The path that was registered last for each packet and file number.
pub open spec fn offered_map(v: Seq<OfferedFile>) -> Map<(u32, u32), Seq<char>>
    decreases v.len(),
{
    if v.len() == 0 {
        Map::empty()
    } else {
        offered_map(v.drop_last()).insert((v.last().packet_no, v.last().file_id), v.last().path@)
    }
}

impl View for OfferedFiles {
    type V = Map<(u32, u32), Seq<char>>;

    closed spec fn view(&self) -> Map<(u32, u32), Seq<char>> {
        offered_map(self.files@)
    }
}

/// No files.
pub fn new_offered_files() -> (r: OfferedFiles)
    ensures
        r@ == Map::<(u32, u32), Seq<char>>::empty(),
{
    OfferedFiles { files: Vec::new() }
}

impl OfferedFiles {
    /// Lets others fetch a file.
    pub fn register(&mut self, packet_no: u32, file_id: u32, path: String)
        ensures
            final(self)@ == old(self)@.insert((packet_no, file_id), path@),
    {
        let ghost before = self.files@;
        self.files.push(OfferedFile { packet_no, file_id, path });
        assert(self.files@.drop_last() =~= before);
    }

    /// The path registered for these numbers.
    pub fn lookup(&self, packet_no: u32, file_id: u32) -> (r: Option<String>)
        ensures
            match r {
                Some(p) => self@.dom().contains((packet_no, file_id)) && p@ == self@[(
                    packet_no,
                    file_id,
                )],
                None => !self@.dom().contains((packet_no, file_id)),
            },
    {
        let ghost k = (packet_no, file_id);
        let mut i: usize = self.files.len();
        proof {
            assert(self.files@.take(i as int) =~= self.files@);
        }
        while i > 0
            invariant
                i <= self.files@.len(),
                k == (packet_no, file_id),
                offered_map(self.files@.take(i as int)).dom().contains(k)
                    == self@.dom().contains(k),
                self@.dom().contains(k) ==> offered_map(self.files@.take(i as int))[k] == self@[k],
            decreases i,
        {
            let f: &OfferedFile = &self.files[i - 1];
            proof {
                assert(self.files@.take(i as int).drop_last() =~= self.files@.take(i - 1));
                assert(self.files@.take(i as int).last() == *f);
            }
            if f.packet_no == packet_no && f.file_id == file_id {
                return Some(f.path.clone());
            }
            i = i - 1;
        }
        proof {
            assert(self.files@.take(0) =~= Seq::<OfferedFile>::empty());
        }
        None
    }
}

/// What a packet on a connection for files is answered with: the path of a
/// registered file and where to start in it. Anything else gets no answer.
pub open spec fn answer_to(
    p: proto::PacketRow,
    offered: Map<(u32, u32), Seq<char>>,
) -> Option<(Seq<char>, u64)> {
    if command::command_num(p.command) != GETFILEDATA {
        None
    } else {
        match request_of(p.extra) {
            None => None,
            Some((packet_no, file_id, offset)) => if offered.dom().contains((packet_no, file_id)) {
                Some((offered[(packet_no, file_id)], offset))
            } else {
                None
            },
        }
    }
}

/// An answer by the values that it holds.
pub open spec fn answer_row(a: Option<(String, u64)>) -> Option<(Seq<char>, u64)> {
    match a {
        Some((path, offset)) => Some((path@, offset)),
        None => None,
    }
}

/// Which file to send, and from where, for a packet that came on a connection.
pub fn answer_packet(packet: &Packet, offered: &OfferedFiles) -> (r: Option<(String, u64)>)
    ensures
        answer_row(r) == answer_to(packet@, offered@),
{
    if Command(packet.command).num() != GETFILEDATA {
        return None;
    }
    match parse_getfiledata_extra(&packet.extra) {
        None => None,
        Some((packet_no, file_id, offset)) => match offered.lookup(packet_no, file_id) {
            Some(path) => Some((path, offset)),
            None => None,
        },
    }
}

/// Which file to send, and from where, for the bytes read from a connection.
/// Bytes that are no request, and requests for what is not registered, get no
/// answer.
pub fn serve_getfiledata_request(bytes: &[u8], offered: &OfferedFiles) -> (r: Option<
    (String, u64),
>)
    ensures
        answer_row(r) == match proto::packet_of_bytes(bytes@) {
            Some(p) => answer_to(p, offered@),
            None => None,
        },
{
    match proto::decode(bytes) {
        Some(packet) => answer_packet(&packet, offered),
        None => None,
    }
}

/// Only registered files are ever handed out.
pub proof fn law_only_offered_files_are_served(
    p: proto::PacketRow,
    offered: Map<(u32, u32), Seq<char>>,
)
    ensures
        answer_to(p, offered) is Some ==> exists|k: (u32, u32)| #[trigger]
            offered.dom().contains(k) && offered[k] == answer_to(p, offered)->Some_0.0,
{
    if answer_to(p, offered) is Some {
        let (packet_no, file_id, offset) = request_of(p.extra)->Some_0;
        assert(offered.dom().contains((packet_no, file_id)));
    }
}

/// The packet that asks for a file from its start.
pub fn request_packet(
    version: &str,
    my_packet_no: u32,
    my_name: &str,
    my_host: &str,
    target_packet_no: u32,
    file_id: u32,
) -> (r: Packet)
    ensures
        r@ == (proto::PacketRow {
            version: version@,
            packet_no: my_packet_no,
            sender: my_name@,
            host: my_host@,
            command: GETFILEDATA,
            extra: request_text(target_packet_no, file_id, 0),
        }),
{
    Packet {
        version: owned(version),
        packet_no: my_packet_no,
        sender: owned(my_name),
        host: owned(my_host),
        command: GETFILEDATA,
        extra: build_getfiledata_extra(target_packet_no, file_id, 0),
    }
}

// ---------------------------------------------------------------------------
// Where a received file is put
// ---------------------------------------------------------------------------

/// A part of a path. A name that is no text has no text here.
#[derive(Debug, Clone, PartialEq, Eq)]
pub enum PathPart {
    Prefix,
    Root,
    Current,
    Parent,
    Name(Option<String>),
}

/// The name under which to save, and whether the path names no directory, so
/// that the current one is used.
#[derive(Debug, Clone, PartialEq, Eq)]
pub struct SaveTarget {
    pub name: String,
    pub in_current_dir: bool,
}

/// Whether a path leads up anywhere on its way.
pub open spec fn leads_up(parts: Seq<PathPart>) -> bool {
    exists|i: int| 0 <= i < parts.len() && #[trigger] parts[i] is Parent
}

/// The safe name at the end of a path that nowhere leads up, if it has one.
pub open spec fn save_name(parts: Seq<PathPart>) -> Option<Seq<char>> {
    if leads_up(parts) || parts.len() == 0 {
        None
    } else {
        match parts.last() {
            PathPart::Name(Some(n)) => if is_safe_name(n@) {
                Some(n@)
            } else {
                None
            },
            _ => None,
        }
    }
}

/// Where to save: refused where any part of the path leads up, or where the
/// last part is no safe name.
pub fn sanitize_save_path(parts: &[PathPart]) -> (r: Option<SaveTarget>)
    ensures
        match r {
            Some(t) => save_name(parts@) == Some(t.name@) && t.in_current_dir == (parts@.len() == 1),
            None => save_name(parts@) is None,
        },
{
    let mut i: usize = 0;
    while i < parts.len()
        invariant
            i <= parts.len(),
            forall|j: int| 0 <= j < i ==> !(#[trigger] parts@[j] is Parent),
        decreases parts.len() - i,
    {
        if let PathPart::Parent = &parts[i] {
            assert(parts@[i as int] is Parent);
            return None;
        }
        i = i + 1;
    }
    if parts.len() == 0 {
        return None;
    }
    match &parts[parts.len() - 1] {
        PathPart::Name(Some(n)) => match safe_basename(n) {
            Some(name) => Some(SaveTarget { name, in_current_dir: parts.len() == 1 }),
            None => None,
        },
        _ => None,
    }
}

/// A request for a file that was offered is answered with the path that was registered last
/// for that packet and that file, from the offset that is asked for. A request for anything
/// else, and any other packet, gets no answer.
pub proof fn law_offered_file_is_served(
    p: proto::PacketRow,
    offered: Map<(u32, u32), Seq<char>>,
    packet_no: u32,
    file_id: u32,
    offset: u64,
)
    ensures
        command::command_num(p.command) == GETFILEDATA && p.extra == request_text(
            packet_no,
            file_id,
            offset,
        ) ==> answer_to(p, offered) == (if offered.dom().contains((packet_no, file_id)) {
            Some((offered[(packet_no, file_id)], offset))
        } else {
            None
        }),
        command::command_num(p.command) != GETFILEDATA ==> answer_to(p, offered) is None,
{
    law_request_round_trip(packet_no, file_id, offset);
}

proof fn lemma_files_of_entries_concat(a: Seq<Seq<char>>, b: Seq<Seq<char>>)
    ensures
        files_of_entries(a + b) == files_of_entries(a) + files_of_entries(b),
    decreases b.len(),
{
    if b.len() == 0 {
        assert(a + b =~= a);
        assert(files_of_entries(a) + files_of_entries(b) =~= files_of_entries(a));
    } else {
        lemma_files_of_entries_concat(a, b.drop_last());
        assert((a + b).drop_last() =~= a + b.drop_last());
        assert((a + b).last() == b.last());
        assert(files_of_entries(a + b) =~= files_of_entries(a) + files_of_entries(b));
    }
}

/// Several offered files are read one after the other, each by itself: an entry that cannot be
/// used is passed over, and the others are read all the same. Without a list there are no
/// files, and the text is all there is.
pub proof fn law_offered_files_are_read_one_by_one(
    body: Seq<char>,
    entry: Seq<char>,
    rest: Seq<char>,
)
    requires
        !body.contains('\u{0}'),
        !entry.contains('\u{7}'),
    ensures
        attachment_of(body) == (body, Seq::<FileRow>::empty()),
        attachment_of(body + seq!['\u{0}'] + (entry + seq!['\u{7}'] + rest)).0 == body,
        attachment_of(body + seq!['\u{0}'] + (entry + seq!['\u{7}'] + rest)).1 == attachment_of(
            body + seq!['\u{0}'] + entry,
        ).1 + attachment_of(body + seq!['\u{0}'] + rest).1,
        file_of_entry(entry) is None ==> attachment_of(body + seq!['\u{0}'] + entry).1.len() == 0,
{
    let more = entry + seq!['\u{7}'] + rest;
    split::lemma_split_last(body, '\u{0}');
    split::lemma_split_piece(body, '\u{0}', more);
    split::lemma_split_piece(body, '\u{0}', entry);
    split::lemma_split_piece(body, '\u{0}', rest);
    split::lemma_split_piece(entry, '\u{7}', rest);
    split::lemma_split_last(entry, '\u{7}');
    lemma_files_of_entries_concat(seq![entry], split::split_at_char(rest, '\u{7}'));
    let one = seq![entry];
    assert(one.drop_last() =~= Seq::<Seq<char>>::empty());
    assert(files_of_entries(one.drop_last()) =~= Seq::<FileRow>::empty());
    assert(one.last() == entry);
}

/// Every file that is read from an offer has a name that can be used.
pub proof fn law_offered_names_are_safe(chunks: Seq<Seq<char>>, i: int)
    requires
        0 <= i < files_of_entries(chunks).len(),
    ensures
        is_safe_name(files_of_entries(chunks)[i].name),
    decreases chunks.len(),
{
    let before = files_of_entries(chunks.drop_last());
    if i < before.len() {
        law_offered_names_are_safe(chunks.drop_last(), i);
    }
}

/// A name that can be used leads nowhere else: it is none of a directory, holds no separator,
/// no colon, no zero and nothing that changes the direction of text, and does not end in a
/// dot or a blank.
pub proof fn law_safe_name_leads_nowhere_else(s: Seq<char>, i: int)
    requires
        is_safe_name(s),
        0 <= i < s.len(),
    ensures
        s[i] != '/' && s[i] != '\\' && s[i] != ':' && s[i] != '\u{0}',
        !(0x202A <= s[i] as int <= 0x202E) && !(0x2066 <= s[i] as int <= 0x2069),
        s[s.len() - 1] != '.' && s[s.len() - 1] != ' ',
        s.len() > 0,
        s != seq!['.'] && s != seq!['.', '.'],
{
    assert(s.contains(s[i]));
    assert(!is_bidi_control(s[i]));
}

/// Every name of five or more letters, digits, dashes and underscores can be used.
pub proof fn law_ordinary_names_are_safe(s: Seq<char>)
    requires
        s.len() >= 5,
        forall|i: int|
            0 <= i < s.len() ==> ('a' <= #[trigger] s[i] <= 'z' || 'A' <= s[i] <= 'Z' || '0' <= s[i]
                <= '9' || s[i] == '-' || s[i] == '_'),
    ensures
        is_safe_name(s),
{
    assert(!s.contains('.'));
    split::lemma_split_last(s, '.');
    reveal_strlit("con");
    reveal_strlit("prn");
    reveal_strlit("aux");
    reveal_strlit("nul");
    reveal_strlit("com1");
    reveal_strlit("com2");
    reveal_strlit("com3");
    reveal_strlit("com4");
    reveal_strlit("com5");
    reveal_strlit("com6");
    reveal_strlit("com7");
    reveal_strlit("com8");
    reveal_strlit("com9");
    reveal_strlit("lpt1");
    reveal_strlit("lpt2");
    reveal_strlit("lpt3");
    reveal_strlit("lpt4");
    reveal_strlit("lpt5");
    reveal_strlit("lpt6");
    reveal_strlit("lpt7");
    reveal_strlit("lpt8");
    reveal_strlit("lpt9");
    assert(text::lower_text(s).len() >= 5);
    assert(s[s.len() - 1] == s.last());
}

/// A path that leads up anywhere gives no name to save under; any other gives the name at its
/// end, if that can be used, and no other name.
pub proof fn law_saved_under_the_name_at_the_end(parts: Seq<PathPart>, i: int)
    ensures
        0 <= i < parts.len() && parts[i] is Parent ==> save_name(parts) is None,
        save_name(parts) matches Some(n) ==> parts.len() > 0 && (parts.last() matches PathPart::Name(
            Some(m),
        ) && m@ == n) && is_safe_name(n),
        (forall|k: int| 0 <= k < parts.len() ==> !(#[trigger] parts[k] is Parent)) && parts.len()
            > 0 ==> (parts.last() matches PathPart::Name(Some(m)) ==> is_safe_name(m@) ==> save_name(
            parts,
        ) == Some(m@)),
{
}

/// The text of a header for an entry of a directory: its name, its size and its attribute.
pub open spec fn entry_header_text(name: Seq<char>, size: u64, attr: u32) -> Seq<char> {
    escaped(name) + seq![':'] + (numeral::hexadecimal(size as nat) + seq![':'] + (
    numeral::hexadecimal(attr as nat) + seq![':']))
}

/// The header of an entry is read back: the name, colons and all, the size and the attribute.
pub proof fn law_entry_header_is_read_back(name: Seq<char>, size: u64, attr: u32)
    ensures
        ({
            let f = escaped_fields(entry_header_text(name, size, attr));
            &&& f.len() >= 3
            &&& f[0] == name
            &&& numeral::parse_number(f[1], 16, u64::MAX as nat) == Some(size as nat)
            &&& numeral::parse_number(f[2], 16, u32::MAX as nat) == Some(attr as nat)
        }),
{
    let h1 = numeral::hexadecimal(size as nat);
    let h2 = numeral::hexadecimal(attr as nat);
    let none = Seq::<char>::empty();
    let r2 = h2 + seq![':'];
    let r1 = h1 + seq![':'] + r2;
    numeral::lemma_numeral_value(size as nat, 16);
    numeral::lemma_numeral_value(attr as nat, 16);
    lemma_escaped_clean(h1);
    lemma_escaped_clean(h2);
    assert(r2 =~= h2 + seq![':'] + none);
    law_escaped_field(h2, none);
    law_escaped_field(h1, r2);
    law_escaped_field(name, r1);
    assert(escaped_fields(entry_header_text(name, size, attr)) =~= seq![name, h1, h2, none]);
    numeral::lemma_parse_numeral(size as nat, 16, u64::MAX as nat);
    numeral::lemma_parse_numeral(attr as nat, 16, u32::MAX as nat);
}

} // verus!
