//! Database file naming: composing the on-disk names the store uses and
//! reading a name back into its number and kind.

use vstd::prelude::*;
use crate::errors::{RubbleError, RubbleResult};
use crate::util::coding::{digits_value, leading_digits, parse_u64};

verus! {

/// Handle to the process environment that owns the files.
pub struct Env;

/// What a parsed file name tells: the embedded number and the file's
/// role.
pub struct FileNameDetails {
    pub number: u64,
    pub file_type: FileType,
}

/// The role a database file plays, as its name declares it.
pub enum FileType {
    LogFile,
    DBLockFile,
    TableFile,
    DescriptorFile,
    CurrentFile,
    TempFile,
    /// Either the current info log or an old one.
    InfoLogFile,
}

/// The character standing for the decimal digit `d`.
pub open spec fn digit_char(d: nat) -> char
    recommends
        d < 10,
{
    if d == 0 {
        '0'
    } else if d == 1 {
        '1'
    } else if d == 2 {
        '2'
    } else if d == 3 {
        '3'
    } else if d == 4 {
        '4'
    } else if d == 5 {
        '5'
    } else if d == 6 {
        '6'
    } else if d == 7 {
        '7'
    } else if d == 8 {
        '8'
    } else {
        '9'
    }
}

/// The decimal digits of `n`, most significant first.
pub open spec fn decimal_digits(n: nat) -> Seq<char>
    decreases n,
{
    if n < 10 {
        seq![digit_char(n)]
    } else {
        decimal_digits(n / 10).push(digit_char(n % 10))
    }
}

/// The decimal digits of `n`, zero-padded on the left to at least `w`
/// characters.
pub open spec fn padded_decimal(n: nat, w: nat) -> Seq<char> {
    let d = decimal_digits(n);
    if d.len() >= w {
        d
    } else {
        Seq::new((w - d.len()) as nat, |i: int| '0') + d
    }
}

/// The literal character of one decimal digit.
fn digit_str(d: u64) -> (r: &'static str)
    requires
        d < 10,
    ensures
        r@ == seq![digit_char(d as nat)],
{
    proof {
        reveal_strlit("0");
        reveal_strlit("1");
        reveal_strlit("2");
        reveal_strlit("3");
        reveal_strlit("4");
        reveal_strlit("5");
        reveal_strlit("6");
        reveal_strlit("7");
        reveal_strlit("8");
        reveal_strlit("9");
    }
    if d == 0 {
        "0"
    } else if d == 1 {
        "1"
    } else if d == 2 {
        "2"
    } else if d == 3 {
        "3"
    } else if d == 4 {
        "4"
    } else if d == 5 {
        "5"
    } else if d == 6 {
        "6"
    } else if d == 7 {
        "7"
    } else if d == 8 {
        "8"
    } else {
        "9"
    }
}

/// Appends the decimal digits of `number` to `dst`.
fn push_decimal_digits(dst: &mut String, number: u64)
    ensures
        final(dst)@ == old(dst)@ + decimal_digits(number as nat),
    decreases number,
{
    if number >= 10 {
        push_decimal_digits(dst, number / 10);
    }
    dst.append(digit_str(number % 10));
    proof {
        assert(dst@ =~= old(dst)@ + decimal_digits(number as nat));
    }
}

/// How many characters the decimal form of `number` takes.
fn decimal_len(number: u64) -> (r: usize)
    ensures
        r == decimal_digits(number as nat).len(),
        1 <= r <= 20,
    decreases number,
{
    proof {
        lemma_decimal_digits_len(number as nat);
    }
    if number < 10 {
        1
    } else {
        1 + decimal_len(number / 10)
    }
}

/// The decimal form of a 64-bit number takes at most twenty characters.
proof fn lemma_decimal_digits_len(n: nat)
    ensures
        1 <= decimal_digits(n).len(),
        n <= 0xffffffffffffffff ==> decimal_digits(n).len() <= 20,
    decreases n,
{
    if n >= 10 {
        lemma_decimal_digits_len(n / 10);
        if n <= 0xffffffffffffffff {
            lemma_pow10_values();
            lemma_decimal_digits_len_le(n, 20);
        }
    }
}

/// The twentieth power of ten, step by step.
proof fn lemma_pow10_values()
    ensures
        pow10(20) == 0x56bc75e2d63100000,
{
    assert(pow10(0) == 1);
    assert(pow10(1) == 10);
    assert(pow10(2) == 100);
    assert(pow10(3) == 1000);
    assert(pow10(4) == 10000);
    assert(pow10(5) == 100000);
    assert(pow10(6) == 1000000);
    assert(pow10(7) == 10000000);
    assert(pow10(8) == 100000000);
    assert(pow10(9) == 1000000000);
    assert(pow10(10) == 10000000000);
    assert(pow10(11) == 100000000000);
    assert(pow10(12) == 1000000000000);
    assert(pow10(13) == 10000000000000);
    assert(pow10(14) == 100000000000000);
    assert(pow10(15) == 1000000000000000);
    assert(pow10(16) == 10000000000000000);
    assert(pow10(17) == 100000000000000000);
    assert(pow10(18) == 1000000000000000000);
    assert(pow10(19) == 10000000000000000000);
    assert(pow10(20) == 100000000000000000000);
}

/// Numbers below `10^w` take at most `w` digits.
proof fn lemma_decimal_digits_len_le(n: nat, w: nat)
    requires
        w >= 1,
        n < pow10(w),
    ensures
        decimal_digits(n).len() <= w,
    decreases w,
{
    if n >= 10 {
        assert(pow10(w) == 10 * pow10((w - 1) as nat));
        assert(n / 10 < pow10((w - 1) as nat)) by (nonlinear_arith)
            requires
                n < 10 * pow10((w - 1) as nat),
        ;
        if w == 1 {
            assert(pow10(1) == 10 * pow10(0));
            assert(false);
        }
        lemma_decimal_digits_len_le(n / 10, (w - 1) as nat);
    }
}

/// Ten raised to `w`.
pub open spec fn pow10(w: nat) -> nat
    decreases w,
{
    if w == 0 {
        1
    } else {
        10 * pow10((w - 1) as nat)
    }
}

/// Builds `name`, a slash, `number` zero-padded to six digits, a dot,
/// and `suffix`.
pub fn make_file_name(name: &str, number: u64, suffix: &str) -> (r: String)
    ensures
        r@ == name@ + "/"@ + padded_decimal(number as nat, 6) + "."@ + suffix@,
{
    proof {
        reveal_strlit("/");
        reveal_strlit(".");
        reveal_strlit("0");
    }
    let mut r = String::from_str(name);
    r.append("/");
    let dl = decimal_len(number);
    let mut pad: usize = if dl >= 6 {
        0
    } else {
        6 - dl
    };
    let ghost total_pad = pad as nat;
    let ghost before = r@;
    while pad > 0
        invariant
            pad <= total_pad,
            r@ == before + Seq::new((total_pad - pad) as nat, |i: int| '0'),
            "0"@ == seq!['0'],
        decreases pad,
    {
        r.append("0");
        pad = pad - 1;
        proof {
            assert(r@ =~= before + Seq::new((total_pad - pad) as nat, |i: int| '0'));
        }
    }
    push_decimal_digits(&mut r, number);
    r.append(".");
    r.append(suffix);
    proof {
        assert(r@ =~= name@ + "/"@ + padded_decimal(number as nat, 6) + "."@ + suffix@);
    }
    r
}

/// The name of the log file with the given number, prefixed by the
/// database name.
pub fn log_file_name(name: &str, number: u64) -> (r: String)
    requires
        number > 0,
    ensures
        r@ == name@ + "/"@ + padded_decimal(number as nat, 6) + "."@ + "log"@,
{
    make_file_name(name, number, "log")
}

/// The name of the table file with the given number, prefixed by the
/// database name.
pub fn table_file_name(name: &str, number: u64) -> (r: String)
    requires
        number > 0,
    ensures
        r@ == name@ + "/"@ + padded_decimal(number as nat, 6) + "."@ + "ldb"@,
{
    make_file_name(name, number, "ldb")
}

/// The legacy name of the table file with the given number, prefixed by
/// the database name.
pub fn ssttable_file_name(name: &str, number: u64) -> (r: String)
    requires
        number > 0,
    ensures
        r@ == name@ + "/"@ + padded_decimal(number as nat, 6) + "."@ + "sst"@,
{
    make_file_name(name, number, "sst")
}

/// The name of the descriptor file for the given incarnation number,
/// prefixed by the database name.
pub fn descriptor_file_name(dbname: &str, number: u64) -> (r: String)
    requires
        number > 0,
    ensures
        r@ == dbname@ + "//MANIFEST-"@ + decimal_digits(number as nat),
{
    let mut r = String::from_str(dbname);
    r.append("//MANIFEST-");
    push_decimal_digits(&mut r, number);
    r
}

/// The name of the file that records which manifest is current,
/// prefixed by the database name.
pub fn current_file_name(dbname: &str) -> (r: String)
    ensures
        r@ == dbname@ + "/CURRENT"@,
{
    let mut r = String::from_str(dbname);
    r.append("/CURRENT");
    r
}

/// The name of the database's lock file, prefixed by the database name.
pub fn lock_file_name(dbname: &str) -> (r: String)
    ensures
        r@ == dbname@ + "/LOCK"@,
{
    let mut r = String::from_str(dbname);
    r.append("/LOCK");
    r
}

/// The name of a temporary file owned by the database, prefixed by the
/// database name.
pub fn temp_file_name(dbname: &str, number: u64) -> (r: String)
    requires
        number > 0,
    ensures
        r@ == dbname@ + "/"@ + padded_decimal(number as nat, 6) + "."@ + "dbtmp"@,
{
    make_file_name(dbname, number, "dbtmp")
}

/// The name of the current info log, prefixed by the database name.
pub fn info_log_file_name(dbname: &str) -> (r: String)
    ensures
        r@ == dbname@ + "/LOG"@,
{
    let mut r = String::from_str(dbname);
    r.append("/LOG");
    r
}

/// The name of the previous info log, prefixed by the database name.
pub fn old_info_log_file_name(dbname: &str) -> (r: String)
    ensures
        r@ == dbname@ + "/LOG.old"@,
{
    let mut r = String::from_str(dbname);
    r.append("/LOG.old");
    r
}

/// True iff two strings hold the same characters.
fn str_eq(a: &str, b: &str) -> (r: bool)
    ensures
        r == (a@ == b@),
{
    let sa = String::from_str(a);
    let sb = String::from_str(b);
    sa.eq(&sb)
}

/// True iff `s` is one of the fixed database file names.
pub open spec fn is_fixed_name(s: Seq<char>) -> bool {
    s == "CURRENT"@ || s == "LOCK"@ || s == "LOG"@ || s == "LOG.old"@
}

/// True iff `s` begins with the manifest name prefix.
pub open spec fn has_manifest_prefix(s: Seq<char>) -> bool {
    s.len() >= 9 && s.subrange(0, 9) == "MANIFEST-"@
}

/// The file type a suffix stands for, if any.
pub open spec fn suffix_file_type(s: Seq<char>) -> Option<FileType> {
    if s == ".log"@ {
        Some(FileType::LogFile)
    } else if s == ".sst"@ || s == ".ldb"@ {
        Some(FileType::TableFile)
    } else if s == ".dbtmp"@ {
        Some(FileType::TempFile)
    } else {
        None
    }
}

/// Reads a database file name back: which kind of file it names and the
/// number embedded in it. Fixed names map to their kinds with number
/// zero; a name headed `MANIFEST-` carries a descriptor number; anything
/// else must be a number followed by a known suffix.
pub fn parse_file_name(fname: &str) -> (r: RubbleResult<FileNameDetails>)
    ensures
        fname@ == "CURRENT"@ ==> r is Ok && r->Ok_0.number == 0 && r->Ok_0.file_type
            is CurrentFile,
        fname@ == "LOCK"@ ==> r is Ok && r->Ok_0.number == 0 && r->Ok_0.file_type is DBLockFile,
        (fname@ == "LOG"@ || fname@ == "LOG.old"@) ==> r is Ok && r->Ok_0.number == 0
            && r->Ok_0.file_type is InfoLogFile,
        (!is_fixed_name(fname@) && has_manifest_prefix(fname@)) ==> {
            let rest = fname@.skip(9);
            let ld = leading_digits(rest);
            &&& (r is Ok <==> (ld >= 1 && digits_value(rest, ld) <= 0xffffffffffffffff))
            &&& (r is Ok ==> r->Ok_0.number == digits_value(rest, ld) && r->Ok_0.file_type
                is DescriptorFile)
        },
        (!is_fixed_name(fname@) && !has_manifest_prefix(fname@)) ==> {
            let ld = leading_digits(fname@);
            let suffix = fname@.skip(ld as int);
            &&& (r is Ok <==> (ld >= 1 && digits_value(fname@, ld) <= 0xffffffffffffffff
                && suffix_file_type(suffix) is Some))
            &&& (r is Ok ==> r->Ok_0.number == digits_value(fname@, ld) && suffix_file_type(
                suffix,
            ) == Some(r->Ok_0.file_type))
        },
{
    proof {
        reveal_strlit("CURRENT");
        reveal_strlit("LOCK");
        reveal_strlit("LOG");
        reveal_strlit("LOG.old");
        reveal_strlit("MANIFEST-");
    }
    if str_eq(fname, "CURRENT") {
        return Ok(FileNameDetails { number: 0, file_type: FileType::CurrentFile });
    }
    if str_eq(fname, "LOCK") {
        return Ok(FileNameDetails { number: 0, file_type: FileType::DBLockFile });
    }
    if str_eq(fname, "LOG") || str_eq(fname, "LOG.old") {
        return Ok(FileNameDetails { number: 0, file_type: FileType::InfoLogFile });
    }
    let n_chars = fname.unicode_len();
    let manifest = "MANIFEST-";
    let manifest_chars = manifest.unicode_len();
    if n_chars >= manifest_chars {
        let head = fname.substring_char(0, manifest_chars);
        if str_eq(head, manifest) {
            let rest = fname.substring_char(manifest_chars, n_chars);
            proof {
                assert(rest@ =~= fname@.skip(9));
            }
            let parsed = match parse_u64(rest) {
                Ok(p) => p,
                Err(e) => {
                    return Err(e);
                },
            };
            return Ok(
                FileNameDetails { number: parsed.number, file_type: FileType::DescriptorFile },
            );
        }
    }
    proof {
        if has_manifest_prefix(fname@) {
            assert(fname@.subrange(0, 9).len() == 9);
        }
    }
    let parsed = match parse_u64(fname) {
        Ok(p) => p,
        Err(e) => {
            return Err(e);
        },
    };
    let suffix = fname.substring_char(parsed.offset, n_chars);
    proof {
        assert(suffix@ =~= fname@.skip(parsed.offset as int));
        reveal_strlit(".log");
        reveal_strlit(".sst");
        reveal_strlit(".ldb");
        reveal_strlit(".dbtmp");
    }
    let file_type = if str_eq(suffix, ".log") {
        FileType::LogFile
    } else if str_eq(suffix, ".sst") || str_eq(suffix, ".ldb") {
        FileType::TableFile
    } else if str_eq(suffix, ".dbtmp") {
        FileType::TempFile
    } else {
        return Err(RubbleError::Other("unknown file type"));
    };
    Ok(FileNameDetails { number: parsed.number, file_type })
}

} // verus!
