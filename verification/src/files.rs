//! Small file-side utilities: name validation, permission flags,
//! human-readable size and time rendering, file-type classification, header
//! sniffing and journal-line parsing.

use vstd::prelude::*;

use crate::cache::ChangeKind;
use crate::text::{is_alnum, alnum_char, seq_contains, str_contains, str_eq};

verus! {

/// The permission flags the tool tracks for a file it created.
pub struct PermissionsFichier {
    /// The file's name.
    pub name: String,
    /// May be read.
    pub is_read: bool,
    /// May be written.
    pub is_write: bool,
    /// May be deleted.
    pub is_delete: bool,
}

impl PermissionsFichier {
    /// Fresh files start readable and writable, but not deletable.
    pub fn new(name: &str) -> (r: PermissionsFichier)
        ensures
            r.name@ == name@,
            r.is_read,
            r.is_write,
            !r.is_delete,
    {
        PermissionsFichier {
            name: name.to_owned(),
            is_read: true,
            is_write: true,
            is_delete: false,
        }
    }
}

/// Every character is alphanumeric, a dot or an underscore.
pub open spec fn valid_name(s: Seq<char>) -> bool {
    forall|i: int| 0 <= i < s.len() ==> is_alnum(#[trigger] s[i]) || s[i] == '.' || s[i] == '_'
}

/// File names may hold only alphanumerics, dots and underscores.
pub fn is_name_valid(name: &str) -> (r: bool)
    ensures
        r == valid_name(name@),
{
    let n = name.unicode_len();
    let mut i: usize = 0;
    while i < n
        invariant
            i <= n,
            n == name@.len(),
            forall|j: int|
                0 <= j < i ==> is_alnum(#[trigger] name@[j]) || name@[j] == '.' || name@[j]
                    == '_',
        decreases n - i,
    {
        let c = name.get_char(i);
        if !alnum_char(c) && c != '.' && c != '_' {
            return false;
        }
        i += 1;
    }
    true
}

/// Relies on std::path::Path::exists: asks the filesystem whether the path
/// points at anything; the answer depends on the disk, so nothing is
/// promised of it.
#[verifier::external_body]
pub fn check_existence(path: &str) -> bool {
    std::path::Path::new(path).exists()
}

/// The icon shown for an entry: a folder for directories, a page for
/// everything else.
pub fn get_file_icon(is_directory: bool) -> (r: String)
    ensures
        is_directory ==> r@ == "📁"@,
        !is_directory ==> r@ == "📄"@,
{
    if is_directory {
        String::from_str("📁")
    } else {
        String::from_str("📄")
    }
}

/// The `rwx` rendering of the owner bits of a Unix mode word.
pub open spec fn perm_text(mode: u32) -> Seq<char> {
    (if mode & 0o400 != 0 {
        "r"@
    } else {
        "-"@
    }) + (if mode & 0o200 != 0 {
        "w"@
    } else {
        "-"@
    }) + (if mode & 0o100 != 0 {
        "x"@
    } else {
        "-"@
    })
}

/// Renders the owner permission bits of a mode word.
pub fn get_permissions_string(mode: u32) -> (r: String)
    ensures
        r@ == perm_text(mode),
{
    let mut r = if mode & 0o400 != 0 {
        String::from_str("r")
    } else {
        String::from_str("-")
    };
    if mode & 0o200 != 0 {
        r.append("w");
    } else {
        r.append("-");
    }
    if mode & 0o100 != 0 {
        r.append("x");
    } else {
        r.append("-");
    }
    r
}

/// The decimal digits of `n`.
pub open spec fn dec_str(n: nat) -> Seq<char>
    decreases n,
{
    if n < 10 {
        seq![(((48 + n) as u8) as char)]
    } else {
        dec_str(n / 10) + seq![(((48 + n % 10) as u8) as char)]
    }
}

/// One decimal digit as a string slice.
fn digit_str(d: u64) -> (r: &'static str)
    requires
        d < 10,
    ensures
        r@ == seq![(((48 + d) as u8) as char)],
{
    let r: &'static str = match d {
        0 => "0",
        1 => "1",
        2 => "2",
        3 => "3",
        4 => "4",
        5 => "5",
        6 => "6",
        7 => "7",
        8 => "8",
        _ => "9",
    };
    proof {
        reveal_strlit("0");
        reveal_strlit("1");
        reveal_strlit("2");
        reveal_strlit("3");
        reveal_strlit("4");
        reveal_strlit("5");
        reveal_strlit("6");
        reveal_strlit("7");
        reveal_strlit("8");
        reveal_strlit("9");
        assert(r@ =~= seq![(((48 + d) as u8) as char)]);
    }
    r
}

/// Renders `n` in decimal.
pub fn u64_to_string(n: u64) -> (r: String)
    ensures
        r@ == dec_str(n as nat),
    decreases n,
{
    if n < 10 {
        digit_str(n).to_owned()
    } else {
        let rest = u64_to_string(n / 10);
        rest.concat(digit_str(n % 10))
    }
}

/// One value scaled by `unit`, with a single decimal digit.
pub open spec fn scaled_text(size: u64, unit: u64) -> Seq<char>
    recommends
        unit > 0,
{
    let v = (size as int) * 10 / (unit as int);
    dec_str((v / 10) as nat) + "."@ + dec_str((v % 10) as nat)
}

/// The human-readable size: bytes up to a kibibyte, then one decimal digit
/// of the scaled value, truncated.
pub open spec fn size_text(size: u64) -> Seq<char> {
    if size < 1024 {
        dec_str(size as nat) + " B"@
    } else if size < 1048576 {
        scaled_text(size, 1024) + " KB"@
    } else if size < 1073741824 {
        scaled_text(size, 1048576) + " MB"@
    } else {
        scaled_text(size, 1073741824) + " GB"@
    }
}

/// Renders the scaled value with one decimal digit.
fn format_scaled(size: u64, unit: u64) -> (r: String)
    requires
        unit >= 1024,
    ensures
        r@ == scaled_text(size, unit),
{
    let v128: u128 = (size as u128) * 10 / (unit as u128);
    proof {
        assert((size as int) * 10 / (unit as int) < 0x10000000000000000int) by (nonlinear_arith)
            requires
                0 <= size <= u64::MAX,
                unit >= 1024,
        ;
    }
    let v: u64 = v128 as u64;
    let whole = u64_to_string(v / 10);
    let frac = u64_to_string(v % 10);
    let mut r = whole;
    r.append(".");
    r.append(frac.as_str());
    r
}

/// Renders a byte count for people.
pub fn format_size(size: u64) -> (r: String)
    ensures
        r@ == size_text(size),
{
    if size < 1024 {
        let mut r = u64_to_string(size);
        r.append(" B");
        r
    } else if size < 1048576 {
        let mut r = format_scaled(size, 1024);
        r.append(" KB");
        r
    } else if size < 1073741824 {
        let mut r = format_scaled(size, 1048576);
        r.append(" MB");
        r
    } else {
        let mut r = format_scaled(size, 1073741824);
        r.append(" GB");
        r
    }
}

/// Two digits, zero-padded.
pub open spec fn two_digit_text(x: u64) -> Seq<char> {
    if x < 10 {
        "0"@ + dec_str(x as nat)
    } else {
        dec_str(x as nat)
    }
}

/// Renders a component zero-padded to two digits.
fn format_two(x: u64) -> (r: String)
    ensures
        r@ == two_digit_text(x),
{
    if x < 10 {
        let mut r = String::from_str("0");
        let d = u64_to_string(x);
        r.append(d.as_str());
        r
    } else {
        u64_to_string(x)
    }
}

/// The calendar-less rendering of a timestamp: fixed 30-day months and
/// 365-day years, counted from 1970.
pub open spec fn time_text(secs: u64) -> Seq<char> {
    let seconds = secs % 60;
    let minutes = (secs / 60) % 60;
    let hours = (secs / 3600) % 24;
    let days = (secs / 86400) % 30;
    let months = (secs / 2592000) % 12;
    let years = secs / 31536000;
    dec_str((1970 + years) as nat) + "-"@ + two_digit_text((1 + months) as u64) + "-"@
        + two_digit_text((1 + days) as u64) + " "@ + two_digit_text(hours as u64) + ":"@
        + two_digit_text(minutes as u64) + ":"@ + two_digit_text(seconds as u64)
}

/// Renders a timestamp, seconds since the epoch, as `YYYY-MM-DD HH:MM:SS`
/// over fixed-length months and years.
pub fn format_time(secs: u64) -> (r: String)
    ensures
        r@ == time_text(secs),
{
    let seconds = secs % 60;
    let minutes = (secs / 60) % 60;
    let hours = (secs / 3600) % 24;
    let days = (secs / 86400) % 30;
    let months = (secs / 2592000) % 12;
    let years = secs / 31536000;
    let mut r = u64_to_string(1970 + years);
    r.append("-");
    let p1 = format_two(1 + months);
    r.append(p1.as_str());
    r.append("-");
    let p2 = format_two(1 + days);
    r.append(p2.as_str());
    r.append(" ");
    let p3 = format_two(hours);
    r.append(p3.as_str());
    r.append(":");
    let p4 = format_two(minutes);
    r.append(p4.as_str());
    r.append(":");
    let p5 = format_two(seconds);
    r.append(p5.as_str());
    r
}

/// The four leading bytes mark an ELF or Mach-O executable.
pub open spec fn executable_header(b0: u8, b1: u8, b2: u8, b3: u8) -> bool {
    ||| (b0 == 0x7f && b1 == 0x45 && b2 == 0x4c && b3 == 0x46)
    ||| (b0 == 0xfe && b1 == 0xed && b2 == 0xfa && b3 == 0xce)
    ||| (b0 == 0xfe && b1 == 0xed && b2 == 0xfa && b3 == 0xcf)
}

/// Classifies four leading bytes as a native executable image.
pub fn is_executable_header(b0: u8, b1: u8, b2: u8, b3: u8) -> (r: bool)
    ensures
        r == executable_header(b0, b1, b2, b3),
{
    (b0 == 0x7f && b1 == 0x45 && b2 == 0x4c && b3 == 0x46) || (b0 == 0xfe && b1 == 0xed && b2
        == 0xfa && b3 == 0xce) || (b0 == 0xfe && b1 == 0xed && b2 == 0xfa && b3 == 0xcf)
}

/// Two leading bytes mark a shebang script.
pub fn is_shebang_header(b0: u8, b1: u8) -> (r: bool)
    ensures
        r == (b0 == 0x23 && b1 == 0x21),
{
    b0 == 0x23 && b1 == 0x21
}

/// The pure half of the application test: a regular file counts as a
/// runnable program when its owner may execute it, or its first bytes mark
/// a native executable image or a shebang script.  `head` is `None` when
/// the leading bytes could not be read.
pub fn is_application_from(is_file: bool, mode: u32, head: Option<(u8, u8, u8, u8)>) -> (r:
    bool)
    ensures
        r == (is_file && ((mode & 0o111 != 0) || (head is Some && executable_header(
            head.unwrap().0,
            head.unwrap().1,
            head.unwrap().2,
            head.unwrap().3,
        )) || (head is Some && head.unwrap().0 == 0x23 && head.unwrap().1 == 0x21))),
{
    if !is_file {
        return false;
    }
    if mode & 0o111 != 0 {
        return true;
    }
    match head {
        Some((b0, b1, b2, b3)) => is_executable_header(b0, b1, b2, b3) || is_shebang_header(
            b0,
            b1,
        ),
        None => false,
    }
}

/// Index of the first `/` in `s`, or `-1`.
pub open spec fn first_slash(s: Seq<char>) -> int
    decreases s.len(),
{
    if s.len() == 0 {
        -1
    } else if s[0] == '/' {
        0
    } else {
        let r = first_slash(s.skip(1));
        if r < 0 {
            -1
        } else {
            r + 1
        }
    }
}

/// What `first_slash` finds.
proof fn lemma_first_slash(s: Seq<char>)
    ensures
        -1 <= first_slash(s) < s.len(),
        first_slash(s) >= 0 ==> s[first_slash(s)] == '/',
        first_slash(s) == -1 ==> forall|i: int| 0 <= i < s.len() ==> s[i] != '/',
        forall|i: int| 0 <= i < first_slash(s) ==> s[i] != '/',
    decreases s.len(),
{
    if s.len() > 0 && s[0] != '/' {
        lemma_first_slash(s.skip(1));
        let r = first_slash(s.skip(1));
        if r < 0 {
            assert forall|i: int| 0 <= i < s.len() implies s[i] != '/' by {
                if i >= 1 {
                    assert(s.skip(1)[i - 1] == s[i]);
                }
            }
        } else {
            assert(s.skip(1)[r] == s[r + 1]);
            assert forall|i: int| 0 <= i < first_slash(s) implies s[i] != '/' by {
                if i >= 1 {
                    assert(s.skip(1)[i - 1] == s[i]);
                }
            }
        }
    }
}

/// Reads one journal line: a creation or modification or a removal, with
/// the path starting at the first slash; lines without a recognized kind
/// or without a slash carry nothing.
pub fn parse_journal_line(line: &str) -> (r: Option<(ChangeKind, String)>)
    ensures
        r is Some <==> ((seq_contains(line@, "CREATE"@) || seq_contains(line@, "MODIFY"@)
            || seq_contains(line@, "DELETE"@)) && first_slash(line@) >= 0),
        r is Some ==> r.unwrap().1@ == line@.subrange(first_slash(line@), line@.len() as int),
        r is Some ==> (r.unwrap().0 is Removed <==> !(seq_contains(line@, "CREATE"@)
            || seq_contains(line@, "MODIFY"@))),
        r is Some ==> (r.unwrap().0 is Created <==> seq_contains(line@, "CREATE"@)),
        r is Some ==> (r.unwrap().0 is Modified <==> (!seq_contains(line@, "CREATE"@)
            && seq_contains(line@, "MODIFY"@))),
{
    proof {
        lemma_first_slash(line@);
    }
    let upsert_kind = str_contains(line, "CREATE") || str_contains(line, "MODIFY");
    let delete_kind = str_contains(line, "DELETE");
    if !upsert_kind && !delete_kind {
        return None;
    }
    let n = line.unicode_len();
    let mut i: usize = 0;
    while i < n
        invariant
            i <= n,
            n == line@.len(),
            upsert_kind == (seq_contains(line@, "CREATE"@) || seq_contains(line@, "MODIFY"@)),
            delete_kind == seq_contains(line@, "DELETE"@),
            upsert_kind || delete_kind,
            forall|k: int| 0 <= k < i ==> line@[k] != '/',
        decreases n - i,
    {
        if line.get_char(i) == '/' {
            proof {
                lemma_first_slash(line@);
                let fs = first_slash(line@);
                if fs < i {
                    assert(line@[fs] != '/');
                }
                if fs > i || fs == -1 {
                    assert(line@[i as int] != '/');
                }
            }
            let path = line.substring_char(i, n).to_owned();
            let kind = if upsert_kind {
                if str_contains(line, "CREATE") {
                    ChangeKind::Created
                } else {
                    ChangeKind::Modified
                }
            } else {
                ChangeKind::Removed
            };
            return Some((kind, path));
        }
        i += 1;
    }
    proof {
        lemma_first_slash(line@);
        let fs = first_slash(line@);
        if fs >= 0 {
            assert(line@[fs] != '/');
        }
    }
    None
}

/// Digit test on a character.
pub open spec fn is_digit(c: char) -> bool {
    48 <= (c as u32) <= 57
}

/// Numeric value of an all-digit sequence.
pub open spec fn digits_val(s: Seq<char>) -> nat
    decreases s.len(),
{
    if s.len() == 0 {
        0
    } else {
        digits_val(s.drop_last()) * 10 + (if is_digit(s.last()) {
            ((s.last() as u32) - 48) as nat
        } else {
            0
        })
    }
}

/// A longer digit string never has a smaller value.
proof fn lemma_digits_val_grows(s: Seq<char>, i: int)
    requires
        0 <= i <= s.len(),
    ensures
        digits_val(s) >= digits_val(s.subrange(0, i)),
    decreases s.len() - i,
{
    if i < s.len() {
        lemma_digits_val_grows(s, i + 1);
        assert(s.subrange(0, i + 1).drop_last() =~= s.subrange(0, i));
        assert(digits_val(s.subrange(0, i + 1)) >= digits_val(s.subrange(0, i)));
    } else {
        assert(s.subrange(0, i) =~= s);
    }
}

/// Parses an unsigned decimal: every character a digit, at least one, and
/// the value within range.
pub fn parse_number(s: &str) -> (r: Option<u64>)
    ensures
        r is Some <==> (s@.len() > 0 && (forall|i: int|
            0 <= i < s@.len() ==> is_digit(#[trigger] s@[i])) && digits_val(s@)
            <= u64::MAX),
        r is Some ==> r.unwrap() == digits_val(s@),
{
    let n = s.unicode_len();
    if n == 0 {
        return None;
    }
    let mut acc: u64 = 0;
    let mut i: usize = 0;
    while i < n
        invariant
            i <= n,
            n == s@.len(),
            forall|j: int| 0 <= j < i ==> is_digit(#[trigger] s@[j]),
            acc == digits_val(s@.subrange(0, i as int)),
        decreases n - i,
    {
        let c = s.get_char(i);
        let u = c as u32;
        if u < 48 || u > 57 {
            return None;
        }
        let d = (u - 48) as u64;
        let wide: u128 = (acc as u128) * 10 + (d as u128);
        if wide > u64::MAX as u128 {
            proof {
                assert(s@.subrange(0, i + 1).drop_last() =~= s@.subrange(0, i as int));
                assert(s@.subrange(0, i + 1).last() == s@[i as int]);
                assert(digits_val(s@.subrange(0, i + 1)) > u64::MAX);
                lemma_digits_val_grows(s@, i + 1);
            }
            return None;
        }
        acc = wide as u64;
        proof {
            assert(s@.subrange(0, i + 1).drop_last() =~= s@.subrange(0, i as int));
            assert(s@.subrange(0, i + 1).last() == s@[i as int]);
        }
        i += 1;
    }
    proof {
        assert(s@.subrange(0, n as int) =~= s@);
    }
    Some(acc)
}

/// A path together with the icon drawn for it.
pub struct FileIcon {
    /// The path the icon belongs to.
    pub path: String,
}

/// A path and its rendered icon, as listed in search output.
pub struct FileInfo {
    /// The path shown.
    pub path: String,
    /// The icon text shown next to it.
    pub icon: String,
}

/// The classes an entry is drawn as.
#[derive(PartialEq, Eq, Structural, Clone, Copy, Debug)]
pub enum FileType {
    /// A directory.
    Directory,
    /// Source code.
    Code,
    /// A PDF document.
    PDF,
    /// An audio file.
    Audio,
    /// An image.
    Image,
    /// A video.
    Video,
    /// Plain or structured text.
    Text,
    /// A word-processor document.
    Word,
    /// A spreadsheet.
    Excel,
    /// A presentation.
    PowerPoint,
    /// Anything else.
    Other,
}

/// Code extensions.
pub open spec fn code_ext(e: Seq<char>) -> bool {
    e == "rs"@ || e == "py"@ || e == "js"@ || e == "ts"@ || e == "java"@ || e == "cpp"@ || e
        == "c"@ || e == "h"@ || e == "hpp"@ || e == "cs"@ || e == "go"@ || e == "php"@ || e
        == "swift"@ || e == "kt"@ || e == "html"@ || e == "css"@ || e == "ml"@
}

/// Audio extensions.
pub open spec fn audio_ext(e: Seq<char>) -> bool {
    e == "mp3"@ || e == "wav"@ || e == "ogg"@ || e == "flac"@ || e == "m4a"@ || e == "aac"@
}

/// Image extensions.
pub open spec fn image_ext(e: Seq<char>) -> bool {
    e == "jpg"@ || e == "jpeg"@ || e == "png"@ || e == "gif"@ || e == "bmp"@ || e == "webp"@
        || e == "svg"@ || e == "ico"@
}

/// Video extensions.
pub open spec fn video_ext(e: Seq<char>) -> bool {
    e == "mp4"@ || e == "avi"@ || e == "mkv"@ || e == "mov"@ || e == "wmv"@ || e == "flv"@ || e
        == "webm"@
}

/// Text extensions.
pub open spec fn text_ext(e: Seq<char>) -> bool {
    e == "txt"@ || e == "md"@ || e == "json"@ || e == "xml"@ || e == "yaml"@ || e == "yml"@
        || e == "csv"@ || e == "log"@
}

/// Word-processor extensions.
pub open spec fn word_ext(e: Seq<char>) -> bool {
    e == "doc"@ || e == "docx"@
}

/// Spreadsheet extensions.
pub open spec fn excel_ext(e: Seq<char>) -> bool {
    e == "xls"@ || e == "xlsx"@ || e == "xlsm"@
}

/// Presentation extensions.
pub open spec fn ppt_ext(e: Seq<char>) -> bool {
    e == "ppt"@ || e == "pptx"@ || e == "pptm"@ || e == "key"@
}

/// The class of an entry from its directory flag and lowercased extension.
pub open spec fn spec_file_type(is_directory: bool, e: Seq<char>) -> FileType {
    if is_directory {
        FileType::Directory
    } else if code_ext(e) {
        FileType::Code
    } else if e == "pdf"@ {
        FileType::PDF
    } else if audio_ext(e) {
        FileType::Audio
    } else if image_ext(e) {
        FileType::Image
    } else if video_ext(e) {
        FileType::Video
    } else if text_ext(e) {
        FileType::Text
    } else if word_ext(e) {
        FileType::Word
    } else if excel_ext(e) {
        FileType::Excel
    } else if ppt_ext(e) {
        FileType::PowerPoint
    } else {
        FileType::Other
    }
}

/// Classifies an entry by its lowercased extension.
pub fn get_file_type(is_directory: bool, extension: &str) -> (r: FileType)
    ensures
        r == spec_file_type(is_directory, extension@),
{
    if is_directory {
        return FileType::Directory;
    }
    let e = extension;
    if str_eq(e, "rs") || str_eq(e, "py") || str_eq(e, "js") || str_eq(e, "ts") || str_eq(
        e,
        "java",
    ) || str_eq(e, "cpp") || str_eq(e, "c") || str_eq(e, "h") || str_eq(e, "hpp") || str_eq(
        e,
        "cs",
    ) || str_eq(e, "go") || str_eq(e, "php") || str_eq(e, "swift") || str_eq(e, "kt")
        || str_eq(e, "html") || str_eq(e, "css") || str_eq(e, "ml") {
        FileType::Code
    } else if str_eq(e, "pdf") {
        FileType::PDF
    } else if str_eq(e, "mp3") || str_eq(e, "wav") || str_eq(e, "ogg") || str_eq(e, "flac")
        || str_eq(e, "m4a") || str_eq(e, "aac") {
        FileType::Audio
    } else if str_eq(e, "jpg") || str_eq(e, "jpeg") || str_eq(e, "png") || str_eq(e, "gif")
        || str_eq(e, "bmp") || str_eq(e, "webp") || str_eq(e, "svg") || str_eq(e, "ico") {
        FileType::Image
    } else if str_eq(e, "mp4") || str_eq(e, "avi") || str_eq(e, "mkv") || str_eq(e, "mov")
        || str_eq(e, "wmv") || str_eq(e, "flv") || str_eq(e, "webm") {
        FileType::Video
    } else if str_eq(e, "txt") || str_eq(e, "md") || str_eq(e, "json") || str_eq(e, "xml")
        || str_eq(e, "yaml") || str_eq(e, "yml") || str_eq(e, "csv") || str_eq(e, "log") {
        FileType::Text
    } else if str_eq(e, "doc") || str_eq(e, "docx") {
        FileType::Word
    } else if str_eq(e, "xls") || str_eq(e, "xlsx") || str_eq(e, "xlsm") {
        FileType::Excel
    } else if str_eq(e, "ppt") || str_eq(e, "pptx") || str_eq(e, "pptm") || str_eq(e, "key") {
        FileType::PowerPoint
    } else {
        FileType::Other
    }
}

} // verus!
