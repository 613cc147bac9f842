use vstd::prelude::*;

verus! {

/// The stem of the last component of a path, as `std::path::Path::file_stem` gives it.
pub uninterp spec fn stem_of(path: Seq<char>) -> Option<Seq<char>>;

/// The extension of the last component of a path, as `std::path::Path::extension` gives it.
pub uninterp spec fn extension_of(path: Seq<char>) -> Option<Seq<char>>;

/// Relies on `std::path::Path::file_stem`: the file name of the path without its extension.
#[verifier::external_body]
fn file_stem(path: &str) -> (r: Option<String>)
    ensures
        r matches Some(s) ==> stem_of(path@) == Some(s@),
        r is None ==> stem_of(path@) is None,
{
    match std::path::Path::new(path).file_stem() {
        Some(s) => s.to_str().map(String::from),
        None => None,
    }
}

/// Relies on `std::path::Path::extension`: what follows the last `.` of the file name.
#[verifier::external_body]
fn file_extension(path: &str) -> (r: Option<String>)
    ensures
        r matches Some(s) ==> extension_of(path@) == Some(s@),
        r is None ==> extension_of(path@) is None,
{
    match std::path::Path::new(path).extension() {
        Some(s) => s.to_str().map(String::from),
        None => None,
    }
}

/// The decimal digit `d`.
pub open spec fn digit_char(d: nat) -> char {
    if d == 0 {
        '0'
    } else if d == 1 {
        '1'
    } else if d == 2 {
        '2'
    } else if d == 3 {
        '3'
    } else if d == 4 {
        '4'
    } else if d == 5 {
        '5'
    } else if d == 6 {
        '6'
    } else if d == 7 {
        '7'
    } else if d == 8 {
        '8'
    } else {
        '9'
    }
}

/// `n` written in decimal, without leading zeros.
pub open spec fn decimal(n: nat) -> Seq<char>
    decreases n,
{
    if n < 10 {
        seq![digit_char(n)]
    } else {
        decimal(n / 10) + seq![digit_char(n % 10)]
    }
}

/// The decimal digit `d` as text.
fn digit_text(d: usize) -> (r: &'static str)
    requires
        d < 10,
    ensures
        r@ == seq![digit_char(d as nat)],
{
    proof {
        reveal_strlit("0");
        reveal_strlit("1");
        reveal_strlit("2");
        reveal_strlit("3");
        reveal_strlit("4");
        reveal_strlit("5");
        reveal_strlit("6");
        reveal_strlit("7");
        reveal_strlit("8");
        reveal_strlit("9");
    }
    if d == 0 {
        "0"
    } else if d == 1 {
        "1"
    } else if d == 2 {
        "2"
    } else if d == 3 {
        "3"
    } else if d == 4 {
        "4"
    } else if d == 5 {
        "5"
    } else if d == 6 {
        "6"
    } else if d == 7 {
        "7"
    } else if d == 8 {
        "8"
    } else {
        "9"
    }
}

/// Appends `n` in decimal to `s`.
fn append_decimal(s: &mut String, n: usize)
    ensures
        final(s)@ == old(s)@ + decimal(n as nat),
    decreases n,
{
    if n >= 10 {
        append_decimal(s, n / 10);
    }
    s.append(digit_text(n % 10));
    assert(decimal(n as nat) == if n < 10 {
        seq![digit_char(n as nat)]
    } else {
        decimal((n / 10) as nat) + seq![digit_char((n % 10) as nat)]
    });
}

/// The stem a file name keeps: its own, or `UnnamedFile` where it has none.
pub open spec fn stem_or_default(name: Seq<char>) -> Seq<char> {
    match stem_of(name) {
        Some(s) => s,
        None => "UnnamedFile"@,
    }
}

/// The name tried at attempt `count` for a file with stem `stem` and extension `ext`: the
/// stem, then `_` and the attempt number from the second attempt on, then the extension.
pub open spec fn candidate_name(stem: Seq<char>, ext: Option<Seq<char>>, count: nat) -> Seq<char> {
    let base = if count == 0 {
        stem
    } else {
        stem + seq!['_'] + decimal(count)
    };
    match ext {
        Some(e) => base + seq!['.'] + e,
        None => base,
    }
}

/// The file name to try at attempt `count` (from 0) when storing an upload named `name`:
/// `a.txt`, then `a_1.txt`, `a_2.txt` and so on, until one does not exist yet.
pub fn candidate_file_name(name: &str, count: usize) -> (r: String)
    ensures
        r@ == candidate_name(stem_or_default(name@), extension_of(name@), count as nat),
{
    let mut s = match file_stem(name) {
        Some(stem) => stem,
        None => <String as StringExecFns>::from_str("UnnamedFile"),
    };
    let ghost stem = s@;
    if count > 0 {
        proof {
            reveal_strlit("_");
        }
        s.append("_");
        append_decimal(&mut s, count);
    }
    let ghost base = s@;
    assert(base == if count == 0 {
        stem
    } else {
        stem + seq!['_'] + decimal(count as nat)
    });
    match file_extension(name) {
        Some(ext) => {
            proof {
                reveal_strlit(".");
            }
            s.append(".");
            s.append(ext.as_str());
        },
        None => {},
    }
    s
}

} // verus!
