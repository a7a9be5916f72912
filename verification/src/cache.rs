//! The record of the repositories found under a root, as it is kept
//! between runs: where it lies, how it is written, how it is read, and
//! when it still holds.

use vstd::prelude::*;

use crate::path::{home_dir, join, spec_join};
use crate::text::{
    append_chars, chars_of, lemma_first_or_len, lines, opt_text, opt_texts, rows, split_lines,
    string_of, strip_cr, texts,
};

verus! {

/// The characters that stand in the name of a record for `c`: `_` for a
/// separator; `%b` for a backslash, `%c` for a colon, `%u` for `_` and
/// `%%` for `%`; `c` itself otherwise.
pub open spec fn key_code(c: char) -> Seq<char> {
    if c == '/' {
        seq!['_']
    } else if c == '\\' {
        seq!['%', 'b']
    } else if c == ':' {
        seq!['%', 'c']
    } else if c == '_' {
        seq!['%', 'u']
    } else if c == '%' {
        seq!['%', '%']
    } else {
        seq![c]
    }
}

/// The name of the file that holds the record for the root `base_path`:
/// what stands for each of its characters, in order. The name holds no
/// separator, no backslash and no colon, and no two roots have the same name.
pub open spec fn spec_cache_file_name(base_path: Seq<char>) -> Seq<char>
    decreases base_path.len(),
{
    if base_path.len() == 0 {
        Seq::empty()
    } else {
        key_code(base_path[0]) + spec_cache_file_name(base_path.drop_first())
    }
}

/// The directory that holds the records, for a given home directory.
pub open spec fn spec_cache_dir(home: Seq<char>) -> Seq<char> {
    spec_join(spec_join(home, ".cache"@), "fuzzit"@)
}

/// The digit that stands for `d`.
pub open spec fn digit_char(d: nat) -> char {
    if d == 0 {
        '0'
    } else if d == 1 {
        '1'
    } else if d == 2 {
        '2'
    } else if d == 3 {
        '3'
    } else if d == 4 {
        '4'
    } else if d == 5 {
        '5'
    } else if d == 6 {
        '6'
    } else if d == 7 {
        '7'
    } else if d == 8 {
        '8'
    } else {
        '9'
    }
}

/// `c` is one of the ten digits.
pub open spec fn is_digit(c: char) -> bool {
    exists|d: nat| d < 10 && c == #[trigger] digit_char(d)
}

/// The number that the digit `c` stands for.
pub open spec fn digit_value(c: char) -> nat {
    choose|d: nat| d < 10 && c == #[trigger] digit_char(d)
}

/// The decimal digits of `n`, the first of them not `0` unless `n` is 0.
pub open spec fn decimal(n: nat) -> Seq<char>
    decreases n,
{
    if n < 10 {
        seq![digit_char(n)]
    } else {
        decimal(n / 10).push(digit_char(n % 10))
    }
}

/// Every character is a digit.
pub open spec fn all_digits(s: Seq<char>) -> bool {
    forall|i: int| 0 <= i < s.len() ==> is_digit(#[trigger] s[i])
}

/// The number that a sequence of digits stands for.
pub open spec fn digits_value(s: Seq<char>) -> nat
    decreases s.len(),
{
    if s.len() == 0 {
        0
    } else {
        digits_value(s.drop_last()) * 10 + digit_value(s.last())
    }
}

/// The number that `s` stands for: one or more digits, after an optional
/// `+`, whose value is at most `u64::MAX`. No other text stands for a number.
pub open spec fn parse_decimal(s: Seq<char>) -> Option<u64> {
    let digits = if s.len() > 0 && s[0] == '+' {
        s.drop_first()
    } else {
        s
    };
    if digits.len() > 0 && all_digits(digits) && digits_value(digits) <= u64::MAX {
        Some(digits_value(digits) as u64)
    } else {
        None
    }
}

/// The given lines, each closed by a line feed.
pub open spec fn joined_lines(paths: Seq<Seq<char>>) -> Seq<char>
    decreases paths.len(),
{
    if paths.len() == 0 {
        Seq::empty()
    } else {
        paths[0] + seq!['\n'] + joined_lines(paths.drop_first())
    }
}

/// The text of a record: the time in decimal on the first line, then one path on each line.
pub open spec fn spec_record(mtime_secs: u64, repo_paths: Seq<Seq<char>>) -> Seq<char> {
    decimal(mtime_secs as nat) + seq!['\n'] + joined_lines(repo_paths)
}

/// What a text holds, read as a record: the time on its first line and
/// the paths on the lines after it. A text without a first line, or whose
/// first line is no number, is no record.
pub open spec fn spec_parse_record(content: Seq<char>) -> Option<(u64, Seq<Seq<char>>)> {
    let all = lines(content);
    if all.len() == 0 {
        None
    } else {
        match parse_decimal(all[0]) {
            Some(mtime_secs) => Some((mtime_secs, all.skip(1))),
            None => None,
        }
    }
}

/// The paths of the record in `content`, where it is a record and was
/// written when the root was last modified at `current_mtime_secs`.
pub open spec fn spec_mtime_matches_cache(current_mtime_secs: u64, content: Seq<char>) -> Option<
    Seq<Seq<char>>,
> {
    match spec_parse_record(content) {
        Some((mtime_secs, repo_paths)) => if mtime_secs == current_mtime_secs {
            Some(repo_paths)
        } else {
            None
        },
        None => None,
    }
}

/// A text that comes back as one line, unchanged, when it is written on a
/// line of its own: it holds no line feed and does not end in a carriage return.
pub open spec fn is_line(s: Seq<char>) -> bool {
    !s.contains('\n') && (s.len() == 0 || s.last() != '\r')
}

/// The digit that stands for `d`.
fn digit(d: u64) -> (c: char)
    requires
        d < 10,
    ensures
        c == digit_char(d as nat),
{
    if d == 0 {
        '0'
    } else if d == 1 {
        '1'
    } else if d == 2 {
        '2'
    } else if d == 3 {
        '3'
    } else if d == 4 {
        '4'
    } else if d == 5 {
        '5'
    } else if d == 6 {
        '6'
    } else if d == 7 {
        '7'
    } else if d == 8 {
        '8'
    } else {
        '9'
    }
}

/// The number that the digit `c` stands for, if it is a digit.
fn digit_of(c: char) -> (d: Option<u64>)
    ensures
        d is Some <==> is_digit(c),
        d matches Some(d) ==> d < 10 && d == digit_value(c),
{
    let d: Option<u64> = if c == '0' {
        Some(0)
    } else if c == '1' {
        Some(1)
    } else if c == '2' {
        Some(2)
    } else if c == '3' {
        Some(3)
    } else if c == '4' {
        Some(4)
    } else if c == '5' {
        Some(5)
    } else if c == '6' {
        Some(6)
    } else if c == '7' {
        Some(7)
    } else if c == '8' {
        Some(8)
    } else if c == '9' {
        Some(9)
    } else {
        None
    };
    proof {
        match d {
            Some(v) => {
                assert(c == digit_char(v as nat));
                lemma_digit_value(v as nat);
            },
            None => {
                assert forall|k: nat| k < 10 implies c != #[trigger] digit_char(k) by {}
            },
        }
    }
    d
}

/// Each digit stands for its own number.
pub proof fn lemma_digit_value(d: nat)
    requires
        d < 10,
    ensures
        is_digit(digit_char(d)),
        digit_value(digit_char(d)) == d,
        digit_char(d) != '+',
        digit_char(d) != '\n',
        digit_char(d) != '\r',
{
    let c = digit_char(d);
    let v = digit_value(c);
    assert(v < 10 && c == digit_char(v));
}

/// Appends the decimal digits of `n`.
fn push_decimal(out: &mut Vec<char>, n: u64)
    ensures
        final(out)@ == old(out)@ + decimal(n as nat),
    decreases n,
{
    if n >= 10 {
        push_decimal(out, n / 10);
    }
    out.push(digit(n % 10));
}

/// The number that the characters stand for.
pub fn parse_u64(s: &[char]) -> (out: Option<u64>)
    ensures
        out == parse_decimal(s@),
{
    let start: usize = if s.len() > 0 && s[0] == '+' {
        1
    } else {
        0
    };
    let ghost digits = s@.skip(start as int);
    if start == s.len() {
        return None;
    }
    let mut value: u64 = 0;
    let mut i: usize = start;
    proof {
        assert(digits.take(0) == Seq::<char>::empty());
        if start == 1 {
            assert(digits == s@.drop_first());
        } else {
            assert(digits == s@);
        }
    }
    while i < s.len()
        invariant
            start <= i <= s.len(),
            digits == s@.skip(start as int),
            digits == (if s@.len() > 0 && s@[0] == '+' {
                s@.drop_first()
            } else {
                s@
            }),
            all_digits(digits.take(i - start)),
            value == digits_value(digits.take(i - start)),
        decreases s.len() - i,
    {
        let ghost upto = digits.take(i - start + 1);
        proof {
            assert(upto.drop_last() == digits.take(i - start));
            assert(upto.last() == s@[i as int]);
            assert(digits[i - start] == s@[i as int]);
        }
        let d = match digit_of(s[i]) {
            Some(d) => d,
            None => {
                proof {
                    assert(!is_digit(digits[i - start]));
                }
                return None;
            },
        };
        if value > (u64::MAX - d) / 10 {
            proof {
                assert(digits_value(upto) > u64::MAX);
                lemma_digits_value_grows(digits, i - start + 1);
            }
            return None;
        }
        value = value * 10 + d;
        proof {
            assert forall|k: int| 0 <= k < upto.len() implies is_digit(#[trigger] upto[k]) by {
                if k < upto.len() - 1 {
                    assert(upto[k] == digits.take(i - start)[k]);
                }
            }
        }
        i += 1;
    }
    proof {
        assert(digits.take(i - start) == digits);
    }
    Some(value)
}

/// A sequence of digits stands for no smaller a number than its beginning does.
pub proof fn lemma_digits_value_grows(s: Seq<char>, n: int)
    requires
        0 <= n <= s.len(),
    ensures
        digits_value(s.take(n)) <= digits_value(s),
    decreases s.len(),
{
    if n == s.len() {
        assert(s.take(n) == s);
    } else {
        assert(s.drop_last().take(n) == s.take(n));
        lemma_digits_value_grows(s.drop_last(), n);
    }
}

/// The name of the file that holds the record for the root `base_path`.
pub fn cache_file_name(base_path: &str) -> (out: String)
    ensures
        out@ == spec_cache_file_name(base_path@),
{
    let chars = chars_of(base_path);
    let mut name: Vec<char> = Vec::new();
    let mut i: usize = 0;
    proof {
        assert(chars@.take(0) == Seq::<char>::empty());
    }
    while i < chars.len()
        invariant
            i <= chars.len(),
            name@ == spec_cache_file_name(chars@.take(i as int)),
        decreases chars.len() - i,
    {
        let c = chars[i];
        let ghost before = name@;
        if c == '/' {
            name.push('_');
        } else if c == '\\' {
            name.push('%');
            name.push('b');
        } else if c == ':' {
            name.push('%');
            name.push('c');
        } else if c == '_' {
            name.push('%');
            name.push('u');
        } else if c == '%' {
            name.push('%');
            name.push('%');
        } else {
            name.push(c);
        }
        proof {
            assert(name@ == before + key_code(c));
            lemma_cache_file_name_push(chars@.take(i as int), c);
            assert(chars@.take(i + 1) == chars@.take(i as int).push(c));
        }
        i += 1;
    }
    proof {
        assert(chars@.take(i as int) == chars@);
    }
    string_of(name.as_slice())
}

/// A character added at the end of the root adds what stands for it at
/// the end of the name.
pub proof fn lemma_cache_file_name_push(base_path: Seq<char>, c: char)
    ensures
        spec_cache_file_name(base_path.push(c)) == spec_cache_file_name(base_path) + key_code(c),
    decreases base_path.len(),
{
    let all = base_path.push(c);
    if base_path.len() == 0 {
        assert(all.drop_first() == Seq::<char>::empty());
        assert(all[0] == c);
        assert(spec_cache_file_name(all.drop_first()) == Seq::<char>::empty());
        assert(spec_cache_file_name(all) == key_code(c) + Seq::<char>::empty());
        assert(spec_cache_file_name(base_path) == Seq::<char>::empty());
        assert(spec_cache_file_name(all) =~= spec_cache_file_name(base_path) + key_code(c));
    } else {
        assert(all.drop_first() == base_path.drop_first().push(c));
        assert(all[0] == base_path[0]);
        lemma_cache_file_name_push(base_path.drop_first(), c);
        assert(spec_cache_file_name(all) =~= spec_cache_file_name(base_path) + key_code(c));
    }
}

/// Distinct roots never share a record: the name of the file tells the root.
pub proof fn lemma_cache_file_name_injective(a: Seq<char>, b: Seq<char>)
    requires
        spec_cache_file_name(a) == spec_cache_file_name(b),
    ensures
        a == b,
    decreases a.len() + b.len(),
{
    if a.len() == 0 || b.len() == 0 {
        if a.len() > 0 {
            assert(spec_cache_file_name(a).len() >= key_code(a[0]).len());
        }
        if b.len() > 0 {
            assert(spec_cache_file_name(b).len() >= key_code(b[0]).len());
        }
        assert(a =~= b);
    } else {
        let x = key_code(a[0]);
        let y = key_code(b[0]);
        let rest_a = spec_cache_file_name(a.drop_first());
        let rest_b = spec_cache_file_name(b.drop_first());
        let name = spec_cache_file_name(a);
        assert(name == x + rest_a);
        assert(name == y + rest_b);
        assert(name[0] == x[0] && name[0] == y[0]);
        if x.len() == 2 {
            assert(x[0] == '%');
            assert(y.len() == 2);
            assert(name[1] == x[1] && name[1] == y[1]);
        } else {
            assert(y.len() == 1);
        }
        assert(a[0] == b[0]);
        assert(rest_a == name.skip(x.len() as int));
        assert(rest_b == name.skip(y.len() as int));
        lemma_cache_file_name_injective(a.drop_first(), b.drop_first());
        assert(a == seq![a[0]] + a.drop_first());
        assert(b == seq![b[0]] + b.drop_first());
    }
}

/// The name of a record holds no separator, no backslash and no colon.
pub proof fn lemma_cache_file_name_is_plain(base_path: Seq<char>)
    ensures
        !spec_cache_file_name(base_path).contains('/'),
        !spec_cache_file_name(base_path).contains('\\'),
        !spec_cache_file_name(base_path).contains(':'),
    decreases base_path.len(),
{
    let name = spec_cache_file_name(base_path);
    if base_path.len() > 0 {
        let code = key_code(base_path[0]);
        let rest = spec_cache_file_name(base_path.drop_first());
        lemma_cache_file_name_is_plain(base_path.drop_first());
        assert forall|i: int| 0 <= i < name.len() implies name[i] != '/' && name[i] != '\\'
            && name[i] != ':' by {
            if i >= code.len() {
                assert(name[i] == rest[i - code.len()]);
                assert(rest.contains(rest[i - code.len()]));
            } else {
                assert(name[i] == code[i]);
            }
        }
    }
}

/// In one directory, distinct roots have distinct record files.
pub proof fn lemma_cache_path_injective(cache_dir: Seq<char>, a: Seq<char>, b: Seq<char>)
    requires
        spec_join(cache_dir, spec_cache_file_name(a)) == spec_join(
            cache_dir,
            spec_cache_file_name(b),
        ),
    ensures
        a == b,
{
    let x = spec_cache_file_name(a);
    let y = spec_cache_file_name(b);
    let lead = if cache_dir.len() == 0 || cache_dir.last() == crate::path::SEPARATOR {
        cache_dir
    } else {
        cache_dir.push(crate::path::SEPARATOR)
    };
    assert(spec_join(cache_dir, x) == lead + x);
    assert(spec_join(cache_dir, y) == lead + y);
    assert(x == (lead + x).skip(lead.len() as int));
    assert(y == (lead + y).skip(lead.len() as int));
    lemma_cache_file_name_injective(a, b);
}

/// The directory that holds the records, for a given home directory.
pub fn cache_dir(home: &str) -> (out: String)
    ensures
        out@ == spec_cache_dir(home@),
{
    let hidden = join(home, ".cache");
    join(hidden.as_str(), "fuzzit")
}

/// The directory that holds the records of the user who runs the program.
/// There is none where the home directory is not known.
pub fn resolve_cache_dir() -> (out: Option<String>)
    ensures
        out matches Some(dir) ==> exists|home: Seq<char>| dir@ == spec_cache_dir(home),
{
    let home = home_dir();
    let out = cache_dir_for(home);
    proof {
        if out is Some {
            assert(out->0@ == spec_cache_dir(home->0@));
        }
    }
    out
}

/// The directory that holds the records, for a home directory that may
/// not be known: there is none where the home directory is not known.
pub open spec fn spec_cache_dir_for(home: Option<Seq<char>>) -> Option<Seq<char>> {
    match home {
        Some(home) => Some(spec_cache_dir(home)),
        None => None,
    }
}

/// The directory that holds the records, for a home directory that may
/// not be known.
pub fn cache_dir_for(home: Option<String>) -> (out: Option<String>)
    ensures
        opt_text(out) == spec_cache_dir_for(opt_text(home)),
{
    match home {
        Some(home) => Some(cache_dir(home.as_str())),
        None => None,
    }
}

/// The file in the directory `cache_dir` that holds the record for the root `base_path`.
pub fn get_cache_path(cache_dir: &str, base_path: &str) -> (out: String)
    ensures
        out@ == spec_join(cache_dir@, spec_cache_file_name(base_path@)),
{
    let name = cache_file_name(base_path);
    join(cache_dir, name.as_str())
}

/// The text of the record that says: when the root was last modified at
/// `mtime_secs`, these repositories lay under it.
pub fn create_cache(mtime_secs: u64, repo_paths: &Vec<String>) -> (out: String)
    ensures
        out@ == spec_record(mtime_secs, texts(repo_paths@)),
{
    let mut content: Vec<char> = Vec::new();
    push_decimal(&mut content, mtime_secs);
    content.push('\n');
    let ghost head = content@;
    let mut i: usize = 0;
    proof {
        assert(head == decimal(mtime_secs as nat) + seq!['\n']);
        assert(texts(repo_paths@).take(0) == Seq::<Seq<char>>::empty());
        assert(head + joined_lines(Seq::<Seq<char>>::empty()) == head);
    }
    while i < repo_paths.len()
        invariant
            i <= repo_paths.len(),
            content@ == head + joined_lines(texts(repo_paths@).take(i as int)),
        decreases repo_paths.len() - i,
    {
        let path = chars_of(repo_paths[i].as_str());
        let ghost before = texts(repo_paths@).take(i as int);
        append_chars(&mut content, path.as_slice());
        content.push('\n');
        proof {
            lemma_joined_lines_push(before, path@);
            assert(texts(repo_paths@).take(i + 1) == before.push(path@));
            assert(content@ == head + (joined_lines(before) + path@ + seq!['\n']));
        }
        i += 1;
    }
    proof {
        assert(texts(repo_paths@).take(i as int) == texts(repo_paths@));
    }
    string_of(content.as_slice())
}

/// The paths of the record in `content`, where it is a record and was
/// written when the root was last modified at `current_mtime_secs`.
pub fn mtime_matches_cache(current_mtime_secs: u64, content: &str) -> (out: Option<Vec<String>>)
    ensures
        opt_texts(out) == spec_mtime_matches_cache(current_mtime_secs, content@),
{
    let chars = chars_of(content);
    let all = split_lines(chars.as_slice());
    if all.len() == 0 {
        return None;
    }
    let cached_mtime = match parse_u64(all[0].as_slice()) {
        Some(mtime_secs) => mtime_secs,
        None => {
            return None;
        },
    };
    if cached_mtime != current_mtime_secs {
        return None;
    }
    let mut repo_paths: Vec<String> = Vec::new();
    let mut i: usize = 1;
    while i < all.len()
        invariant
            1 <= i <= all.len(),
            texts(repo_paths@) == rows(all@).subrange(1, i as int),
        decreases all.len() - i,
    {
        let ghost before = texts(repo_paths@);
        repo_paths.push(string_of(all[i].as_slice()));
        proof {
            assert(texts(repo_paths@) == before.push(rows(all@)[i as int]));
        }
        i += 1;
    }
    proof {
        assert(rows(all@).subrange(1, i as int) == rows(all@).skip(1));
    }
    Some(repo_paths)
}

/// What the record says of the root, where it may be trusted: nothing is
/// taken from it where a fresh search was asked for, where the time of the
/// root's last modification could not be read, or where there is no text.
pub open spec fn spec_lookup(
    refresh: bool,
    current_mtime_secs: Option<u64>,
    content: Option<Seq<char>>,
) -> Option<Seq<Seq<char>>> {
    if refresh {
        None
    } else {
        match (current_mtime_secs, content) {
            (Some(mtime_secs), Some(content)) => spec_mtime_matches_cache(mtime_secs, content),
            _ => None,
        }
    }
}

/// The repositories under the root as the record has them, where it may be
/// trusted. `current_mtime_secs` is the time of the root's last
/// modification and `content` the text of the record; either is missing
/// where it could not be read.
pub fn lookup(refresh: bool, current_mtime_secs: Option<u64>, content: Option<String>) -> (out:
    Option<Vec<String>>)
    ensures
        opt_texts(out) == spec_lookup(refresh, current_mtime_secs, opt_text(content)),
{
    if refresh {
        return None;
    }
    match (current_mtime_secs, content) {
        (Some(mtime_secs), Some(content)) => mtime_matches_cache(mtime_secs, content.as_str()),
        _ => None,
    }
}

/// A line added at the end is written after the others.
pub proof fn lemma_joined_lines_push(paths: Seq<Seq<char>>, path: Seq<char>)
    ensures
        joined_lines(paths.push(path)) == joined_lines(paths) + path + seq!['\n'],
    decreases paths.len(),
{
    let all = paths.push(path);
    if paths.len() == 0 {
        assert(all.drop_first() == Seq::<Seq<char>>::empty());
        assert(joined_lines(all) == path + seq!['\n'] + joined_lines(Seq::<Seq<char>>::empty()));
        assert(joined_lines(all) =~= joined_lines(paths) + path + seq!['\n']);
    } else {
        assert(all.drop_first() == paths.drop_first().push(path));
        lemma_joined_lines_push(paths.drop_first(), path);
        assert(joined_lines(all) =~= joined_lines(paths) + path + seq!['\n']);
    }
}

/// The decimal digits of a number are digits, at least one, and stand for the number.
pub proof fn lemma_decimal(n: nat)
    ensures
        decimal(n).len() > 0,
        all_digits(decimal(n)),
        digits_value(decimal(n)) == n,
        decimal(n)[0] != '+',
        is_line(decimal(n)),
    decreases n,
{
    let s = decimal(n);
    if n < 10 {
        lemma_digit_value(n);
        assert(s.drop_last() == Seq::<char>::empty());
        assert(digits_value(s.drop_last()) == 0);
    } else {
        lemma_decimal(n / 10);
        lemma_digit_value(n % 10);
        let head = decimal(n / 10);
        assert(s.drop_last() == head);
        assert(s[0] == head[0]);
        assert forall|i: int| 0 <= i < s.len() implies is_digit(#[trigger] s[i]) by {
            if i < head.len() {
                assert(s[i] == head[i]);
            }
        }
        assert(!s.contains('\n')) by {
            if s.contains('\n') {
                let i = choose|i: int| 0 <= i < s.len() && s[i] == '\n';
                if i < head.len() {
                    assert(head[i] == '\n');
                    assert(head.contains('\n'));
                }
            }
        }
    }
}

/// The decimal digits of a number are read back as that number.
pub proof fn lemma_parse_decimal(n: u64)
    ensures
        parse_decimal(decimal(n as nat)) == Some(n),
{
    lemma_decimal(n as nat);
}

/// A text that ends a line: the line is read back, and the reading goes on after it.
pub proof fn lemma_lines_after_line(line: Seq<char>, rest: Seq<char>)
    requires
        is_line(line),
    ensures
        lines(line + seq!['\n'] + rest) == seq![line] + lines(rest),
{
    let all = line + seq!['\n'] + rest;
    let end = line.len() as int;
    assert forall|k: int| 0 <= k < end implies all[k] != '\n' by {
        assert(all[k] == line[k]);
        assert(line.contains(line[k]));
    }
    assert(all[end] == '\n');
    lemma_first_or_len(all, '\n', end);
    assert(all.take(end) == line);
    assert(strip_cr(line) == line);
    assert(all.skip(end + 1) == rest);
}

/// Lines that were written one after the other are read back as they were.
pub proof fn lemma_lines_of_joined(paths: Seq<Seq<char>>)
    requires
        forall|i: int| 0 <= i < paths.len() ==> is_line(#[trigger] paths[i]),
    ensures
        lines(joined_lines(paths)) == paths,
    decreases paths.len(),
{
    if paths.len() == 0 {
    } else {
        let rest = paths.drop_first();
        assert forall|i: int| 0 <= i < rest.len() implies is_line(#[trigger] rest[i]) by {
            assert(rest[i] == paths[i + 1]);
        }
        lemma_lines_of_joined(rest);
        lemma_lines_after_line(paths[0], joined_lines(rest));
        assert(seq![paths[0]] + rest == paths);
    }
}

/// A record that is written and read back holds the time and the paths
/// that were written, in the order in which they were written.
pub proof fn lemma_record_round_trip(mtime_secs: u64, repo_paths: Seq<Seq<char>>)
    requires
        forall|i: int| 0 <= i < repo_paths.len() ==> is_line(#[trigger] repo_paths[i]),
    ensures
        spec_parse_record(spec_record(mtime_secs, repo_paths)) == Some((mtime_secs, repo_paths)),
{
    let first = decimal(mtime_secs as nat);
    lemma_decimal(mtime_secs as nat);
    lemma_lines_of_joined(repo_paths);
    lemma_lines_after_line(first, joined_lines(repo_paths));
    let all = lines(spec_record(mtime_secs, repo_paths));
    assert(all == seq![first] + repo_paths);
    assert(all.skip(1) == repo_paths);
    assert(all[0] == first);
}

/// While the root was not modified since the record was written, the
/// record gives back the paths that were written into it.
pub proof fn lemma_fresh_record_is_found(mtime_secs: u64, repo_paths: Seq<Seq<char>>)
    requires
        forall|i: int| 0 <= i < repo_paths.len() ==> is_line(#[trigger] repo_paths[i]),
    ensures
        spec_mtime_matches_cache(mtime_secs, spec_record(mtime_secs, repo_paths)) == Some(
            repo_paths,
        ),
        spec_lookup(false, Some(mtime_secs), Some(spec_record(mtime_secs, repo_paths))) == Some(
            repo_paths,
        ),
{
    lemma_record_round_trip(mtime_secs, repo_paths);
}

/// Once the root was modified after the record was written, the record
/// gives nothing back, whatever was written into it.
pub proof fn lemma_stale_record_is_not_found(
    mtime_secs: u64,
    repo_paths: Seq<Seq<char>>,
    current_mtime_secs: u64,
)
    requires
        current_mtime_secs != mtime_secs,
    ensures
        spec_mtime_matches_cache(current_mtime_secs, spec_record(mtime_secs, repo_paths)) is None,
        spec_lookup(false, Some(current_mtime_secs), Some(spec_record(mtime_secs, repo_paths)))
            is None,
{
    let first = decimal(mtime_secs as nat);
    lemma_decimal(mtime_secs as nat);
    lemma_lines_after_line(first, joined_lines(repo_paths));
    let all = lines(spec_record(mtime_secs, repo_paths));
    assert(all[0] == first);
}

} // verus!
