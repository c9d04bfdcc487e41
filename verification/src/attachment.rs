//! Naming a downloaded attachment: `giteki_<number>.<pdf|zip>`, from the
//! file name the server sent and the file's magic bytes.

use vstd::prelude::*;
use crate::api::FileDownload;
use crate::text::{
    append_str, chars_of, is_white_space, is_whitespace_char, opt_view, split_char,
    split_chars, string_of, sub_chars, trim, trim_chars, char_views,
};

verus! {

broadcast use vstd::string::group_string_axioms;

/// Why an attachment could not be named.
#[derive(Clone, Copy, Debug, PartialEq, Eq, Structural)]
pub enum AttachmentError {
    /// The response gave no file name with a usable certification number.
    NoGitekiNumber,
    /// The file is neither a PDF nor a ZIP archive.
    UnknownFileType,
}

impl AttachmentError {
    /// The message shown for this error.
    pub fn message(&self) -> (text: &'static str)
        ensures
            *self == AttachmentError::NoGitekiNumber ==> text@
                == "failed to determine giteki number from attachment response filename"@,
            *self == AttachmentError::UnknownFileType ==> text@
                == "attachment response is neither PDF nor ZIP"@,
    {
        match self {
            AttachmentError::NoGitekiNumber => "failed to determine giteki number from attachment response filename",
            AttachmentError::UnknownFileType => "attachment response is neither PDF nor ZIP",
        }
    }
}

// ---------------------------------------------------------------------------
// Paths
// ---------------------------------------------------------------------------

/// The last path component among `parts` that is a name (neither empty nor
/// `.`), if any.
pub open spec fn last_name_component(parts: Seq<Seq<char>>) -> Option<Seq<char>>
    decreases parts.len(),
{
    if parts.len() == 0 {
        None
    } else if parts.last().len() == 0 || parts.last() == seq!['.'] {
        last_name_component(parts.drop_last())
    } else {
        Some(parts.last())
    }
}

/// `Path::file_name` for a `/`-separated path: the last component, unless
/// it is `..` or there is none.
pub open spec fn path_file_name(path: Seq<char>) -> Option<Seq<char>> {
    match last_name_component(split_char(path, '/')) {
        Some(name) => if name == seq!['.', '.'] {
            None
        } else {
            Some(name)
        },
        None => None,
    }
}

/// The file name of a path.
pub fn file_name_of(path: &Vec<char>) -> (name: Option<Vec<char>>)
    ensures
        match name {
            Some(n) => path_file_name(path@) == Some(n@),
            None => path_file_name(path@) is None,
        },
{
    let parts = split_chars(path, '/');
    let ghost pv = char_views(parts@);
    let mut i = parts.len();
    proof {
        assert(pv.take(i as int) =~= pv);
    }
    while i > 0 && (parts[i - 1].len() == 0 || (parts[i - 1].len() == 1 && parts[i - 1][0] == '.'))
        invariant
            i <= parts.len(),
            pv == char_views(parts@),
            last_name_component(pv) == last_name_component(pv.take(i as int)),
        decreases i,
    {
        proof {
            assert(pv.take(i as int).drop_last() =~= pv.take(i - 1));
            assert(pv.take(i as int).last() == parts@[i - 1]@);
            if parts@[i - 1]@.len() == 1 {
                assert(parts@[i - 1]@ =~= seq!['.']);
            }
        }
        i = i - 1;
    }
    if i == 0 {
        proof {
            assert(pv.take(0) =~= Seq::<Seq<char>>::empty());
        }
        return None;
    }
    let last = &parts[i - 1];
    proof {
        assert(pv.take(i as int).last() == last@);
        if last@.len() == 1 {
            assert(last@ != seq!['.']);
        }
    }
    if last.len() == 2 && last[0] == '.' && last[1] == '.' {
        proof {
            assert(last@ =~= seq!['.', '.']);
        }
        return None;
    }
    proof {
        if last@.len() == 2 {
            assert(last@ != seq!['.', '.']);
        }
    }
    Some(sub_chars(last, 0, last.len()))
}

/// The index of the last `c` in `s`, if any.
pub open spec fn last_index_of(s: Seq<char>, c: char) -> Option<int>
    decreases s.len(),
{
    if s.len() == 0 {
        None
    } else if s.last() == c {
        Some(s.len() - 1)
    } else {
        last_index_of(s.drop_last(), c)
    }
}

fn find_last(v: &Vec<char>, c: char) -> (r: Option<usize>)
    ensures
        match last_index_of(v@, c) {
            Some(i) => r == Some(i as usize) && 0 <= i < v@.len(),
            None => r is None,
        },
{
    let mut i = v.len();
    proof {
        assert(v@.take(i as int) =~= v@);
    }
    while i > 0 && v[i - 1] != c
        invariant
            i <= v.len(),
            last_index_of(v@, c) == last_index_of(v@.take(i as int), c),
        decreases i,
    {
        proof {
            assert(v@.take(i as int).drop_last() =~= v@.take(i - 1));
        }
        i = i - 1;
    }
    proof {
        if i == 0 {
            assert(v@.take(0) =~= Seq::<char>::empty());
        } else {
            assert(v@.take(i as int).last() == v@[i - 1]);
        }
    }
    if i == 0 {
        None
    } else {
        Some(i - 1)
    }
}

/// `Path::extension`: what follows the last `.` of the file name, unless
/// the only `.` starts the name.
pub open spec fn path_extension(path: Seq<char>) -> Option<Seq<char>> {
    match path_file_name(path) {
        Some(name) => match last_index_of(name, '.') {
            Some(i) => if i == 0 {
                None
            } else {
                Some(name.skip(i + 1))
            },
            None => None,
        },
        None => None,
    }
}

// ---------------------------------------------------------------------------
// The certification number
// ---------------------------------------------------------------------------

/// A character kept as it is in a file name.
pub open spec fn safe_file_char(c: char) -> bool {
    ('0' <= c <= '9') || ('A' <= c <= 'Z') || ('a' <= c <= 'z') || c == '-' || c == '_' || c == '.'
}

/// A text reduced to safe file-name characters: whitespace becomes `_`,
/// other unsafe characters are dropped.
pub open spec fn sanitized(s: Seq<char>) -> Seq<char>
    decreases s.len(),
{
    if s.len() == 0 {
        seq![]
    } else {
        let rest = sanitized(s.drop_last());
        let c = s.last();
        if safe_file_char(c) {
            rest.push(c)
        } else if is_white_space(c) {
            rest.push('_')
        } else {
            rest
        }
    }
}

/// Reduces `value` to characters that are safe in a file name.
pub fn sanitize_filename_component(value: &str) -> (out: String)
    ensures
        out@ == sanitized(value@),
{
    let v = chars_of(value);
    let mut out: Vec<char> = Vec::new();
    let mut i: usize = 0;
    while i < v.len()
        invariant
            i <= v.len(),
            v@ == value@,
            out@ == sanitized(v@.take(i as int)),
        decreases v.len() - i,
    {
        proof {
            assert(v@.take(i + 1).drop_last() =~= v@.take(i as int));
            assert(v@.take(i + 1).last() == v@[i as int]);
        }
        let c = v[i];
        if ('0' <= c && c <= '9') || ('A' <= c && c <= 'Z') || ('a' <= c && c <= 'z') || c == '-'
            || c == '_' || c == '.' {
            out.push(c);
        } else if is_whitespace_char(c) {
            out.push('_');
        }
        i = i + 1;
    }
    proof {
        assert(v@.take(v@.len() as int) =~= v@);
    }
    string_of(&out)
}

/// The certification number a file name starts with: the file name's stem
/// (without its last extension) up to the first `_`, trimmed and
/// sanitized; `None` when that leaves nothing.
pub open spec fn giteki_number_of(filename: Seq<char>) -> Option<Seq<char>> {
    match path_file_name(filename) {
        Some(name) => {
            let stem = match last_index_of(name, '.') {
                Some(i) => name.take(i),
                None => name,
            };
            let number = trim(split_char(stem, '_')[0]);
            let clean = sanitized(number);
            if clean.len() == 0 {
                None
            } else {
                Some(clean)
            }
        },
        None => None,
    }
}

/// The certification number that an attachment's file name starts with.
pub fn giteki_number_from_filename(filename: &str) -> (number: Option<String>)
    ensures
        opt_view(number) == giteki_number_of(filename@),
{
    let path = chars_of(filename);
    let name = match file_name_of(&path) {
        Some(n) => n,
        None => {
            return None;
        },
    };
    let stem = match find_last(&name, '.') {
        Some(i) => sub_chars(&name, 0, i),
        None => name,
    };
    proof {
        match last_index_of(name@, '.') {
            Some(i) => {
                assert(name@.subrange(0, i) =~= name@.take(i));
            },
            None => {},
        }
    }
    let pieces = split_chars(&stem, '_');
    proof {
        lemma_split_nonempty(stem@, '_');
        assert(char_views(pieces@)[0] == pieces@[0]@);
    }
    let number = trim_chars(&pieces[0]);
    let number_text = string_of(&number);
    let clean = sanitize_filename_component(number_text.as_str());
    if chars_of(clean.as_str()).len() == 0 {
        None
    } else {
        Some(clean)
    }
}

/// Splitting always gives at least one piece.
pub proof fn lemma_split_nonempty(s: Seq<char>, c: char)
    ensures
        split_char(s, c).len() > 0,
{
    lemma_split_from_nonempty(s, c, seq![]);
}

proof fn lemma_split_from_nonempty(s: Seq<char>, c: char, cur: Seq<char>)
    ensures
        crate::text::split_char_from(s, c, cur).len() > 0,
    decreases s.len(),
{
    if s.len() > 0 {
        if s[0] == c {
            lemma_split_from_nonempty(s.drop_first(), c, seq![]);
        } else {
            lemma_split_from_nonempty(s.drop_first(), c, cur.push(s[0]));
        }
    }
}

// ---------------------------------------------------------------------------
// The file type
// ---------------------------------------------------------------------------

/// The magic bytes of a PDF file.
pub open spec fn pdf_magic() -> Seq<u8> {
    seq![0x25u8, 0x50u8, 0x44u8, 0x46u8, 0x2Du8]
}

/// The magic bytes of a ZIP archive with entries.
pub open spec fn zip_magic() -> Seq<u8> {
    seq![0x50u8, 0x4Bu8, 0x03u8, 0x04u8]
}

/// The magic bytes of an empty ZIP archive.
pub open spec fn empty_zip_magic() -> Seq<u8> {
    seq![0x50u8, 0x4Bu8, 0x05u8, 0x06u8]
}

/// `bytes` begins with `p`.
pub open spec fn bytes_start_with(bytes: Seq<u8>, p: Seq<u8>) -> bool {
    p.len() <= bytes.len() && bytes.take(p.len() as int) == p
}

fn starts_with_bytes(bytes: &Vec<u8>, p: &Vec<u8>) -> (b: bool)
    ensures
        b == bytes_start_with(bytes@, p@),
{
    if p.len() > bytes.len() {
        return false;
    }
    let mut k: usize = 0;
    while k < p.len()
        invariant
            k <= p.len() <= bytes.len(),
            forall|m: int| 0 <= m < k ==> bytes@[m] == p@[m],
        decreases p.len() - k,
    {
        if bytes[k] != p[k] {
            proof {
                assert(bytes@.take(p@.len() as int)[k as int] != p@[k as int]);
            }
            return false;
        }
        k = k + 1;
    }
    proof {
        assert(bytes@.take(p@.len() as int) =~= p@);
    }
    true
}

/// ASCII letters compared without regard to case (`eq_ignore_ascii_case`).
pub open spec fn ascii_lower(c: char) -> char {
    if 'A' <= c <= 'Z' {
        ((c as u32) + 32) as char
    } else {
        c
    }
}

/// `str::eq_ignore_ascii_case`.
pub open spec fn eq_ignore_ascii_case(a: Seq<char>, b: Seq<char>) -> bool {
    a.len() == b.len() && forall|i: int| 0 <= i < a.len() ==> ascii_lower(#[trigger] a[i]) == ascii_lower(b[i])
}

fn lower(c: char) -> (r: char)
    ensures
        r == ascii_lower(c),
{
    if 'A' <= c && c <= 'Z' {
        let u = (c as u32) + 32;
        proof {
            assert(u <= 0x7A);
        }
        if u == 0x61 { 'a' } else if u == 0x62 { 'b' } else if u == 0x63 { 'c' } else if u == 0x64 { 'd' }
        else if u == 0x65 { 'e' } else if u == 0x66 { 'f' } else if u == 0x67 { 'g' } else if u == 0x68 { 'h' }
        else if u == 0x69 { 'i' } else if u == 0x6A { 'j' } else if u == 0x6B { 'k' } else if u == 0x6C { 'l' }
        else if u == 0x6D { 'm' } else if u == 0x6E { 'n' } else if u == 0x6F { 'o' } else if u == 0x70 { 'p' }
        else if u == 0x71 { 'q' } else if u == 0x72 { 'r' } else if u == 0x73 { 's' } else if u == 0x74 { 't' }
        else if u == 0x75 { 'u' } else if u == 0x76 { 'v' } else if u == 0x77 { 'w' } else if u == 0x78 { 'x' }
        else if u == 0x79 { 'y' } else { 'z' }
    } else {
        c
    }
}

fn equal_ignoring_ascii_case(a: &Vec<char>, b: &Vec<char>) -> (eq: bool)
    ensures
        eq == eq_ignore_ascii_case(a@, b@),
{
    if a.len() != b.len() {
        return false;
    }
    let mut k: usize = 0;
    while k < a.len()
        invariant
            k <= a.len() == b.len(),
            forall|m: int| 0 <= m < k ==> ascii_lower(#[trigger] a@[m]) == ascii_lower(b@[m]),
        decreases a.len() - k,
    {
        if lower(a[k]) != lower(b[k]) {
            return false;
        }
        k = k + 1;
    }
    true
}

/// The file type of an attachment: PDF or ZIP by its magic bytes, else by
/// the extension of its file name (any letter case).
pub open spec fn attachment_kind(bytes: Seq<u8>, filename: Option<Seq<char>>) -> Option<Seq<char>> {
    if bytes_start_with(bytes, pdf_magic()) {
        Some("pdf"@)
    } else if bytes_start_with(bytes, zip_magic()) || bytes_start_with(bytes, empty_zip_magic()) {
        Some("zip"@)
    } else {
        match filename {
            Some(f) => match path_extension(f) {
                Some(ext) => if eq_ignore_ascii_case(ext, "pdf"@) {
                    Some("pdf"@)
                } else if eq_ignore_ascii_case(ext, "zip"@) {
                    Some("zip"@)
                } else {
                    None
                },
                None => None,
            },
            None => None,
        }
    }
}

/// The optional text an optional borrowed string holds.
pub open spec fn opt_str_view(o: Option<&str>) -> Option<Seq<char>> {
    match o {
        Some(s) => Some(s@),
        None => None,
    }
}

/// The file extension an attachment is saved with: `pdf` or `zip`.
pub fn attachment_extension(bytes: &Vec<u8>, filename: Option<&str>) -> (ext: Result<&'static str, AttachmentError>)
    ensures
        match attachment_kind(bytes@, opt_str_view(filename)) {
            Some(kind) => ext is Ok && ext->Ok_0@ == kind,
            None => ext == Err::<&'static str, AttachmentError>(AttachmentError::UnknownFileType),
        },
{
    let pdf: Vec<u8> = vec![0x25u8, 0x50u8, 0x44u8, 0x46u8, 0x2Du8];
    let zip: Vec<u8> = vec![0x50u8, 0x4Bu8, 0x03u8, 0x04u8];
    let empty_zip: Vec<u8> = vec![0x50u8, 0x4Bu8, 0x05u8, 0x06u8];
    proof {
        assert(pdf@ =~= pdf_magic());
        assert(zip@ =~= zip_magic());
        assert(empty_zip@ =~= empty_zip_magic());
    }
    if starts_with_bytes(bytes, &pdf) {
        return Ok("pdf");
    }
    if starts_with_bytes(bytes, &zip) || starts_with_bytes(bytes, &empty_zip) {
        return Ok("zip");
    }
    let name = match filename {
        Some(f) => f,
        None => {
            return Err(AttachmentError::UnknownFileType);
        },
    };
    let path = chars_of(name);
    let file = match file_name_of(&path) {
        Some(n) => n,
        None => {
            return Err(AttachmentError::UnknownFileType);
        },
    };
    let dot = match find_last(&file, '.') {
        Some(i) => i,
        None => {
            return Err(AttachmentError::UnknownFileType);
        },
    };
    if dot == 0 {
        return Err(AttachmentError::UnknownFileType);
    }
    let extension = sub_chars(&file, dot + 1, file.len());
    proof {
        assert(file@.subrange(dot + 1, file@.len() as int) =~= file@.skip(dot + 1));
    }
    if equal_ignoring_ascii_case(&extension, &chars_of("pdf")) {
        return Ok("pdf");
    }
    if equal_ignoring_ascii_case(&extension, &chars_of("zip")) {
        return Ok("zip");
    }
    Err(AttachmentError::UnknownFileType)
}

/// The name an attachment is saved under: `giteki_`, the certification
/// number from the response's file name, `.` and the file type.
pub open spec fn output_filename(download_bytes: Seq<u8>, filename: Option<Seq<char>>) -> Result<Seq<char>, AttachmentError> {
    let number = match filename {
        Some(f) => giteki_number_of(f),
        None => None,
    };
    match number {
        None => Err(AttachmentError::NoGitekiNumber),
        Some(n) => match attachment_kind(download_bytes, filename) {
            Some(kind) => Ok("giteki_"@ + n + "."@ + kind),
            None => Err(AttachmentError::UnknownFileType),
        },
    }
}

/// The file name to save a downloaded attachment under.
pub fn attachment_output_filename(download: &FileDownload) -> (name: Result<String, AttachmentError>)
    ensures
        match output_filename(download.bytes@, opt_view(download.filename)) {
            Ok(n) => name is Ok && name->Ok_0@ == n,
            Err(e) => name == Err::<String, AttachmentError>(e),
        },
{
    let filename: Option<&str> = match &download.filename {
        Some(f) => Some(f.as_str()),
        None => None,
    };
    let number = match filename {
        Some(f) => giteki_number_from_filename(f),
        None => None,
    };
    let number = match number {
        Some(n) => n,
        None => {
            return Err(AttachmentError::NoGitekiNumber);
        },
    };
    let extension = match attachment_extension(&download.bytes, filename) {
        Ok(e) => e,
        Err(e) => {
            return Err(e);
        },
    };
    let mut out: Vec<char> = Vec::new();
    append_str(&mut out, "giteki_");
    append_str(&mut out, number.as_str());
    append_str(&mut out, ".");
    append_str(&mut out, extension);
    Ok(string_of(&out))
}

/// Every character that sanitizing keeps or writes is a safe file-name character.
pub proof fn lemma_sanitized_safe(s: Seq<char>)
    ensures
        forall|i: int| 0 <= i < sanitized(s).len() ==> safe_file_char(#[trigger] sanitized(s)[i]),
    decreases s.len(),
{
    if s.len() > 0 {
        let rest = sanitized(s.drop_last());
        lemma_sanitized_safe(s.drop_last());
        assert forall|i: int| 0 <= i < sanitized(s).len() implies safe_file_char(
            #[trigger] sanitized(s)[i],
        ) by {
            if i < rest.len() {
                assert(sanitized(s)[i] == rest[i]);
            }
        }
    }
}

/// A saved attachment's name is `giteki_`, a non-empty certification number
/// and `.pdf` or `.zip`, and holds only ASCII letters, digits, `-`, `_` and
/// `.`: no path separator, so the file lands in the chosen directory.
pub proof fn law_output_filename_safe(download_bytes: Seq<u8>, filename: Option<Seq<char>>)
    requires
        output_filename(download_bytes, filename) is Ok,
    ensures
        ({
            let name = output_filename(download_bytes, filename)->Ok_0;
            &&& forall|i: int| 0 <= i < name.len() ==> safe_file_char(#[trigger] name[i])
            &&& name.take(7) == "giteki_"@
            &&& name.len() > 11
            &&& (name.skip(name.len() - 4) == ".pdf"@ || name.skip(name.len() - 4) == ".zip"@)
        }),
{
    reveal_strlit("giteki_");
    reveal_strlit(".");
    reveal_strlit("pdf");
    reveal_strlit("zip");
    reveal_strlit(".pdf");
    reveal_strlit(".zip");
    let f = filename->Some_0;
    let n = giteki_number_of(f)->Some_0;
    let name_of_file = path_file_name(f)->Some_0;
    let stem = match last_index_of(name_of_file, '.') {
        Some(i) => name_of_file.take(i),
        None => name_of_file,
    };
    lemma_sanitized_safe(trim(split_char(stem, '_')[0]));
    let kind = attachment_kind(download_bytes, filename)->Some_0;
    let name = "giteki_"@ + n + "."@ + kind;
    assert(name == output_filename(download_bytes, filename)->Ok_0);
    assert forall|i: int| 0 <= i < name.len() implies safe_file_char(#[trigger] name[i]) by {
        if i < 7 {
            assert(name[i] == "giteki_"@[i]);
        } else if i < 7 + n.len() {
            assert(name[i] == n[i - 7]);
        } else if i == 7 + n.len() {
            assert(name[i] == '.');
        } else {
            assert(name[i] == kind[i - 8 - n.len()]);
        }
    }
    assert(name.take(7) =~= "giteki_"@);
    assert(name.skip(name.len() - 4) =~= "."@ + kind);
}

} // verus!
