//! Remote paths (HDFS and Azure Blob Storage) and the lines of
//! `hdfs dfs -ls -R` listings.
use vstd::prelude::*;
use crate::text::{has_prefix, starts_with, to_chars, push_chars_from, push_char};
use crate::tree::{name_lt, name_less};
use crate::render::{joined, lines_view, join_items};

verus! {

/// Whether `path` names a remote location: it starts with `hdfs://`,
/// `abfs://`, `abfss://` or `///`.
pub open spec fn is_remote(path: Seq<char>) -> bool {
    has_prefix(path, "hdfs://"@) || has_prefix(path, "abfs://"@) || has_prefix(path, "abfss://"@)
        || has_prefix(path, "///"@)
}

/// Whether `path` is a remote path (see `is_remote`).
pub fn is_remote_path(path: &str) -> (r: bool)
    ensures
        r == is_remote(path@),
{
    starts_with(path, "hdfs://") || starts_with(path, "abfs://") || starts_with(path, "abfss://")
        || starts_with(path, "///")
}

/// The URL with its scheme written `hdfs:///`: `///rest` becomes
/// `hdfs:///rest`, `hdfs://rest` (with no third slash) becomes
/// `hdfs:///rest`, and anything else is kept.
pub open spec fn normalized_url(url: Seq<char>) -> Seq<char> {
    if has_prefix(url, "///"@) {
        "hdfs:///"@ + url.skip(3)
    } else if has_prefix(url, "hdfs://"@) && !has_prefix(url, "hdfs:///"@) {
        "hdfs:///"@ + url.skip(7)
    } else {
        url
    }
}

/// Rewrites a remote URL to the `hdfs:///` form (see `normalized_url`).
pub fn normalize_remote_url(url: &str) -> (r: String)
    ensures
        r@ == normalized_url(url@),
{
    proof {
        reveal_strlit("///");
        reveal_strlit("hdfs://");
    }
    let chars = to_chars(url);
    if starts_with(url, "///") {
        let mut r = String::from_str("hdfs:///");
        push_chars_from(&mut r, &chars, 3);
        r
    } else if starts_with(url, "hdfs://") && !starts_with(url, "hdfs:///") {
        let mut r = String::from_str("hdfs:///");
        push_chars_from(&mut r, &chars, 7);
        r
    } else {
        String::from_str(url)
    }
}

/// Normalizing twice gives what normalizing once gives.
pub proof fn lemma_normalize_idempotent(url: Seq<char>)
    ensures
        normalized_url(normalized_url(url)) == normalized_url(url),
{
    reveal_strlit("///");
    reveal_strlit("hdfs://");
    reveal_strlit("hdfs:///");
    let n = normalized_url(url);
    if has_prefix(url, "///"@) || (has_prefix(url, "hdfs://"@) && !has_prefix(url, "hdfs:///"@)) {
        assert(n.take(8) =~= "hdfs:///"@);
        assert(n.take(7) =~= "hdfs://"@);
        assert(!has_prefix(n, "///"@)) by {
            assert(n[0] == 'h');
        }
    }
}

/// A normalized remote URL is still remote.
pub proof fn lemma_normalize_keeps_remote(url: Seq<char>)
    requires
        is_remote(url),
    ensures
        is_remote(normalized_url(url)),
{
    reveal_strlit("///");
    reveal_strlit("hdfs://");
    reveal_strlit("hdfs:///");
    let n = normalized_url(url);
    if has_prefix(url, "///"@) || (has_prefix(url, "hdfs://"@) && !has_prefix(url, "hdfs:///"@)) {
        assert(n.take(7) =~= "hdfs://"@);
    }
}

/// `s` without its trailing `/` characters.
pub open spec fn trim_trailing_slashes(s: Seq<char>) -> Seq<char>
    decreases s.len(),
{
    if s.len() > 0 && s.last() == '/' {
        trim_trailing_slashes(s.drop_last())
    } else {
        s
    }
}

/// The root of a remote scan: the URL without trailing slashes, as the
/// listing writes the paths below it.
pub fn remote_root_path(url_str: &str) -> (r: String)
    ensures
        r@ == trim_trailing_slashes(url_str@),
{
    let chars = to_chars(url_str);
    let mut end = chars.len();
    assert(url_str@.take(end as int) =~= url_str@);
    while end > 0 && chars[end - 1] == '/'
        invariant
            chars@ == url_str@,
            end <= chars@.len(),
            trim_trailing_slashes(url_str@) == trim_trailing_slashes(url_str@.take(end as int)),
        decreases end,
    {
        assert(url_str@.take(end as int).drop_last() =~= url_str@.take(end - 1));
        end -= 1;
    }
    assert(trim_trailing_slashes(url_str@.take(end as int)) == url_str@.take(end as int));
    let mut r = String::new();
    let mut i: usize = 0;
    assert(url_str@.take(0) =~= Seq::<char>::empty());
    while i < end
        invariant
            chars@ == url_str@,
            end <= chars@.len(),
            i <= end,
            r@ == url_str@.take(i as int),
        decreases end - i,
    {
        push_char(&mut r, chars[i]);
        assert(url_str@.take(i as int).push(url_str@[i as int]) =~= url_str@.take(i + 1));
        i += 1;
    }
    r
}

/// The root path has no trailing slash, and trimming it again changes
/// nothing.
pub proof fn lemma_trim_trailing_slashes(s: Seq<char>)
    ensures
        trim_trailing_slashes(s).len() == 0 || trim_trailing_slashes(s).last() != '/',
        trim_trailing_slashes(trim_trailing_slashes(s)) == trim_trailing_slashes(s),
        has_prefix(s, trim_trailing_slashes(s)),
    decreases s.len(),
{
    if s.len() > 0 && s.last() == '/' {
        lemma_trim_trailing_slashes(s.drop_last());
        let t = trim_trailing_slashes(s.drop_last());
        assert(s.take(t.len() as int) =~= s.drop_last().take(t.len() as int));
    } else {
        assert(s.take(s.len() as int) =~= s);
    }
}

/// Whether `c` is white space in the sense of Unicode's `White_Space`
/// property (`char::is_whitespace`).
pub open spec fn is_white_space(c: char) -> bool {
    let u = c as u32;
    (0x09 <= u <= 0x0D) || u == 0x20 || u == 0x85 || u == 0xA0 || u == 0x1680 || (0x2000 <= u
        <= 0x200A) || u == 0x2028 || u == 0x2029 || u == 0x202F || u == 0x205F || u == 0x3000
}

fn white_space(c: char) -> (r: bool)
    ensures
        r == is_white_space(c),
{
    let u = c as u32;
    (0x09 <= u && u <= 0x0D) || u == 0x20 || u == 0x85 || u == 0xA0 || u == 0x1680 || (0x2000 <= u
        && u <= 0x200A) || u == 0x2028 || u == 0x2029 || u == 0x202F || u == 0x205F || u == 0x3000
}

/// The words of `s` from index `i` on, `cur` holding the letters of the
/// word under way: the maximal runs of characters that are not white space
/// (`str::split_whitespace`).
pub open spec fn words_from(s: Seq<char>, i: int, cur: Seq<char>) -> Seq<Seq<char>>
    decreases s.len() - i,
{
    if i >= s.len() || i < 0 {
        if cur.len() > 0 {
            seq![cur]
        } else {
            Seq::empty()
        }
    } else if is_white_space(s[i]) {
        (if cur.len() > 0 {
            seq![cur]
        } else {
            Seq::empty()
        }) + words_from(s, i + 1, Seq::empty())
    } else {
        words_from(s, i + 1, cur.push(s[i]))
    }
}

/// The words of `s`, in order.
pub open spec fn words(s: Seq<char>) -> Seq<Seq<char>> {
    words_from(s, 0, Seq::empty())
}

/// The words of `line`.
pub fn split_words(line: &str) -> (r: Vec<String>)
    ensures
        lines_view(r@) == words(line@),
{
    let chars = to_chars(line);
    let mut r: Vec<String> = Vec::new();
    let mut cur = String::new();
    let mut i: usize = 0;
    while i < chars.len()
        invariant
            chars@ == line@,
            i <= chars@.len(),
            lines_view(r@) + words_from(line@, i as int, cur@) == words(line@),
        decreases chars.len() - i,
    {
        let c = chars[i];
        let ghost before = lines_view(r@);
        let ghost cur_before = cur@;
        assert(c == line@[i as int]);
        if white_space(c) {
            if !cur.as_str().is_empty() {
                r.push(cur);
                cur = String::new();
                assert(lines_view(r@) =~= before + seq![cur_before]);
            } else {
                assert(cur_before =~= Seq::<char>::empty());
            }
            assert(lines_view(r@) + words_from(line@, i + 1, cur@) =~= before + words_from(line@, i as int, cur_before));
        } else {
            push_char(&mut cur, c);
        }
        i += 1;
    }
    let ghost before = lines_view(r@);
    if !cur.as_str().is_empty() {
        let ghost cur_before = cur@;
        r.push(cur);
        assert(lines_view(r@) =~= before + seq![cur_before]);
    } else {
        assert(before + words_from(line@, i as int, cur@) =~= before);
    }
    r
}

/// The value of a string of decimal digits.
pub open spec fn digits_value(d: Seq<char>) -> nat
    decreases d.len(),
{
    if d.len() == 0 {
        0
    } else {
        digits_value(d.drop_last()) * 10 + ((d.last() as u32) - 48) as nat
    }
}

/// Whether every character of `d` is an ASCII digit.
pub open spec fn all_digits(d: Seq<char>) -> bool {
    forall|i: int| 0 <= i < d.len() ==> '0' <= #[trigger] d[i] && d[i] <= '9'
}

/// `str::parse::<u64>`: an optional `+` and at least one digit, whose value
/// fits in a `u64`.
pub open spec fn parsed_u64(s: Seq<char>) -> Option<u64> {
    let d = if s.len() > 0 && s[0] == '+' { s.drop_first() } else { s };
    if d.len() > 0 && all_digits(d) && digits_value(d) <= u64::MAX {
        Some(digits_value(d) as u64)
    } else {
        None
    }
}

/// Parses a decimal `u64` as `str::parse` does.
pub fn parse_u64(s: &str) -> (r: Option<u64>)
    ensures
        r == parsed_u64(s@),
{
    let chars = to_chars(s);
    let start: usize = if chars.len() > 0 && chars[0] == '+' { 1 } else { 0 };
    let ghost d = if s@.len() > 0 && s@[0] == '+' { s@.drop_first() } else { s@ };
    assert(d =~= s@.skip(start as int));
    if start == chars.len() {
        return None;
    }
    let mut v: u64 = 0;
    let mut i = start;
    assert(s@.subrange(start as int, start as int) =~= Seq::<char>::empty());
    while i < chars.len()
        invariant
            chars@ == s@,
            start <= i <= chars@.len(),
            d == s@.skip(start as int),
            d == (if s@.len() > 0 && s@[0] == '+' { s@.drop_first() } else { s@ }),
            all_digits(s@.subrange(start as int, i as int)),
            v == digits_value(s@.subrange(start as int, i as int)),
        decreases chars.len() - i,
    {
        let c = chars[i];
        let ghost prev = s@.subrange(start as int, i as int);
        let ghost next = s@.subrange(start as int, i + 1);
        assert(next.drop_last() =~= prev);
        if c < '0' || c > '9' {
            assert(d[i - start] == c);
            assert(!all_digits(d));
            return None;
        }
        let digit = (c as u32 - 48) as u64;
        assert(next.last() == c);
        assert(all_digits(next));
        assert(digits_value(next) == v * 10 + digit);
        if v > (u64::MAX - digit) / 10 {
            proof {
                assert(v * 10 + digit > u64::MAX) by (nonlinear_arith)
                    requires
                        v > (u64::MAX - digit) / 10,
                        digit <= 9,
                ;
                assert(d.take(i - start + 1) =~= next);
                lemma_digits_value_prefix(d, i - start + 1);
            }
            return None;
        }
        v = v * 10 + digit;
        i += 1;
    }
    assert(s@.subrange(start as int, chars@.len() as int) =~= d);
    Some(v)
}

/// The value of a string of digits is at least the value of any prefix.
proof fn lemma_digits_value_prefix(d: Seq<char>, k: int)
    requires
        0 <= k <= d.len(),
        all_digits(d.take(k)),
    ensures
        all_digits(d) ==> digits_value(d) >= digits_value(d.take(k)),
    decreases d.len() - k,
{
    if k < d.len() && all_digits(d) {
        assert(d.take(k + 1).drop_last() =~= d.take(k));
        assert(all_digits(d.take(k + 1)));
        lemma_digits_value_prefix(d, k + 1);
        if k + 1 == d.len() {
            assert(d.take(k + 1) =~= d);
        }
    } else if k == d.len() {
        assert(d.take(k) =~= d);
    }
}

/// One line of an `hdfs dfs -ls -R` listing:
/// `drwxr-xr-x - user group 0 2024-01-01 12:00 /path`.
pub struct LsRecord {
    /// The permissions start with `d`.
    pub is_dir: bool,
    /// The size field, or 0 when it is not a number.
    pub size: u64,
    /// Date and time of the last modification, `YYYY-MM-DD HH:MM`.
    pub mtime: String,
    /// The path: the words from the eighth on, joined by single spaces.
    pub path: String,
}

/// What `parse_ls_line` reads from a line with at least eight words.
pub open spec fn ls_record_fields(w: Seq<Seq<char>>, rec: LsRecord) -> bool {
    &&& rec.is_dir == has_prefix(w[0], "d"@)
    &&& rec.size == (match parsed_u64(w[4]) {
        Some(v) => v,
        None => 0,
    })
    &&& rec.mtime@ == w[5] + " "@ + w[6]
    &&& rec.path@ == joined(w.skip(7), " "@)
}

/// Reads one line of an `hdfs dfs -ls -R` listing; lines with fewer than
/// eight words are not entries.
pub fn parse_ls_line(line: &str) -> (r: Option<LsRecord>)
    ensures
        r is Some <==> words(line@).len() >= 8,
        r matches Some(rec) ==> ls_record_fields(words(line@), rec),
{
    let fields = split_words(line);
    if fields.len() < 8 {
        return None;
    }
    let ghost w = words(line@);
    assert(w[0] == fields@[0]@ && w[4] == fields@[4]@ && w[5] == fields@[5]@ && w[6] == fields@[6]@);
    let is_dir = starts_with(fields[0].as_str(), "d");
    let size = match parse_u64(fields[4].as_str()) {
        Some(v) => v,
        None => 0,
    };
    let mut mtime = fields[5].clone();
    mtime.append(" ");
    mtime.append(fields[6].as_str());
    let mut rest: Vec<String> = Vec::new();
    let mut i: usize = 7;
    while i < fields.len()
        invariant
            7 <= i <= fields@.len(),
            rest@ == fields@.subrange(7, i as int),
        decreases fields.len() - i,
    {
        rest.push(fields[i].clone());
        assert(rest@ =~= fields@.subrange(7, i + 1));
        i += 1;
    }
    assert(lines_view(fields@.subrange(7, fields@.len() as int)) =~= w.skip(7));
    let path = join_items(&rest, " ");
    Some(LsRecord { is_dir, size, mtime, path })
}

/// Whether a listed entry counts under the date filter: directories always
/// do, and files do unless their date sorts before the cutoff.
pub fn keep_remote_entry(is_dir: bool, mtime: &str, cutoff: Option<&str>) -> (r: bool)
    ensures
        r == (is_dir || cutoff is None || !name_lt(mtime@, cutoff->0@)),
{
    if is_dir {
        return true;
    }
    match cutoff {
        Some(c) => !name_less(mtime, c),
        None => true,
    }
}

} // verus!
