//! Names and locations of stored scripts.

use vstd::prelude::*;

use crate::calendar::{calendar, in_time_range, year_month};
use crate::text::{
    is_digit, lemma_format_int, char_utf8_len, chars_of, format_int, push_char, push_int, push_str, string_of,
    string_of_range, utf8_len, utf8_size,
};

verus! {

/// The byte size of a prefix grows by the byte length of the next character.
pub proof fn lemma_utf8_size_take(s: Seq<char>, k: int)
    requires
        0 <= k < s.len(),
    ensures
        utf8_size(s.take(k + 1)) == utf8_size(s.take(k)) + utf8_len(s[k]),
{
    assert(s.take(k + 1).drop_last() =~= s.take(k));
}

/// Prefix byte sizes strictly increase with the prefix length.
pub proof fn lemma_utf8_size_increasing(s: Seq<char>, j: int, k: int)
    requires
        0 <= j < k <= s.len(),
    ensures
        utf8_size(s.take(j)) < utf8_size(s.take(k)),
    decreases k - j,
{
    lemma_utf8_size_take(s, k - 1);
    if j < k - 1 {
        lemma_utf8_size_increasing(s, j, k - 1);
    }
}

/// `hash.get(..12).unwrap_or(hash)`: the characters of the first 12 bytes
/// when 12 bytes end on a character boundary, else the whole hash.
pub open spec fn short_hash(s: Seq<char>) -> Seq<char> {
    if exists|k: int| 0 <= k <= s.len() && utf8_size(#[trigger] s.take(k)) == 12 {
        s.take(choose|k: int| 0 <= k <= s.len() && utf8_size(#[trigger] s.take(k)) == 12)
    } else {
        s
    }
}

/// The first 12 bytes of a hash, or the whole hash when it is shorter or
/// 12 bytes would split a character.
pub fn shorten_hash(hash: &str) -> (r: String)
    ensures
        r@ == short_hash(hash@),
{
    let v = chars_of(hash);
    let mut i: usize = 0;
    let mut size: usize = 0;
    assert(v@.take(0) =~= Seq::<char>::empty());
    while i < v.len() && size < 12
        invariant
            i <= v.len(),
            size == utf8_size(v@.take(i as int)),
            size <= 15,
            forall|j: int| 0 <= j < i ==> utf8_size(#[trigger] v@.take(j)) < 12,
        decreases v.len() - i,
    {
        proof {
            lemma_utf8_size_take(v@, i as int);
        }
        size = size + char_utf8_len(v[i]);
        i = i + 1;
    }
    if size == 12 {
        proof {
            assert(utf8_size(v@.take(i as int)) == 12);
            let k = choose|k: int| 0 <= k <= v@.len() && utf8_size(#[trigger] v@.take(k)) == 12;
            if k < i {
                lemma_utf8_size_increasing(v@, k, i as int);
            } else if k > i {
                lemma_utf8_size_increasing(v@, i as int, k);
            }
        }
        let r = string_of_range(&v, 0, i);
        assert(r@ =~= v@.take(i as int));
        r
    } else {
        proof {
            assert forall|k: int| 0 <= k <= v@.len() implies utf8_size(#[trigger] v@.take(k))
                != 12 by {
                if k > i {
                    lemma_utf8_size_increasing(v@, i as int, k);
                }
            }
        }
        string_of(&v)
    }
}

/// `<short hash>_<unix seconds>`.
pub open spec fn identifier(hash: Seq<char>, now: int) -> Seq<char> {
    short_hash(hash) + seq!['_'] + format_int(now, 0)
}

/// The script identifier for a hash registered at Unix time `now`.
pub fn script_identifier(hash: &str, now: i64) -> (r: String)
    ensures
        r@ == identifier(hash@, now as int),
{
    let mut r = shorten_hash(hash);
    push_char(&mut r, '_');
    push_int(&mut r, now, 0);
    r
}

/// A path that starts at the root.
pub open spec fn is_absolute(p: Seq<char>) -> bool {
    p.len() > 0 && p[0] == '/'
}

/// `Path::join` on Unix for a non-empty relative or absolute part: an
/// absolute part replaces the base; otherwise a `/` is put between unless
/// the base is empty or already ends with one.
pub open spec fn path_join(base: Seq<char>, part: Seq<char>) -> Seq<char> {
    if part.len() > 0 && part[0] == '/' {
        part
    } else if base.len() == 0 || base.last() == '/' {
        base + part
    } else {
        base + seq!['/'] + part
    }
}

/// `YYYY-MM` of the UTC calendar month of Unix time `now`.
pub open spec fn month_dir(now: int) -> Seq<char> {
    format_int(calendar(now).0, 4) + seq!['-'] + format_int(calendar(now).1, 2)
}

/// `<short hash>_<unix seconds>.py`.
pub open spec fn script_file_name(hash: Seq<char>, now: int) -> Seq<char> {
    identifier(hash, now) + seq!['.', 'p', 'y']
}

/// `<cache dir>/scripts/<YYYY-MM>/<short hash>_<unix seconds>.py`, the
/// month being that of the same moment as the seconds in the file name.
pub open spec fn storage_path(cache_dir: Seq<char>, hash: Seq<char>, now: int) -> Seq<
    char,
> {
    path_join(
        path_join(path_join(cache_dir, seq!['s', 'c', 'r', 'i', 'p', 't', 's']), month_dir(now)),
        script_file_name(hash, now),
    )
}

fn join_path(base: String, part: String) -> (r: String)
    requires
        part@.len() > 0,
    ensures
        r@ == path_join(base@, part@),
{
    let b = chars_of(base.as_str());
    let p = chars_of(part.as_str());
    if p[0] == '/' {
        part
    } else if b.len() == 0 || b[b.len() - 1] == '/' {
        let mut r = base;
        push_str(&mut r, part.as_str());
        r
    } else {
        let mut r = base;
        push_char(&mut r, '/');
        push_str(&mut r, part.as_str());
        r
    }
}

/// Where the script with this hash, registered at Unix time `now`, is
/// stored under the (absolute) cache directory.
pub fn script_storage_path(cache_dir: &str, hash: &str, now: i64) -> (r: String)
    requires
        is_absolute(cache_dir@),
        in_time_range(now as int),
    ensures
        r@ == storage_path(cache_dir@, hash@, now as int),
        is_absolute(r@),
{
    let (year, mon) = year_month(now);
    let mut month = String::new();
    push_int(&mut month, year, 4);
    push_char(&mut month, '-');
    push_int(&mut month, mon as i64, 2);
    assert(month@ =~= month_dir(now as int));
    let mut file = script_identifier(hash, now);
    push_char(&mut file, '.');
    push_char(&mut file, 'p');
    push_char(&mut file, 'y');
    let mut scripts = String::new();
    push_str(&mut scripts, "scripts");
    proof {
        reveal_strlit("scripts");
    }
    assert(scripts@ =~= seq!['s', 'c', 'r', 'i', 'p', 't', 's']);
    let mut base = String::new();
    push_str(&mut base, cache_dir);
    assert(base@ =~= cache_dir@);
    proof {
        lemma_format_int_nonempty(year as int, 4);
        lemma_storage_path_absolute(cache_dir@, hash@, now as int);
    }
    let a = join_path(base, scripts);
    let b = join_path(a, month);
    join_path(b, file)
}

/// The short hash is a prefix of the hash.
pub proof fn lemma_short_hash_prefix(h: Seq<char>)
    ensures
        short_hash(h).len() <= h.len(),
        short_hash(h) == h.take(short_hash(h).len() as int),
{
    if exists|k: int| 0 <= k <= h.len() && utf8_size(#[trigger] h.take(k)) == 12 {
    } else {
        assert(h.take(h.len() as int) =~= h);
    }
}

/// For a text of ASCII characters, the byte size of a prefix is its length.
pub proof fn lemma_ascii_size(h: Seq<char>, k: int)
    requires
        0 <= k <= h.len(),
        forall|i: int| 0 <= i < h.len() ==> (#[trigger] h[i] as u32) < 128,
    ensures
        utf8_size(h.take(k)) == k,
    decreases k,
{
    if k > 0 {
        lemma_ascii_size(h, k - 1);
        lemma_utf8_size_take(h, k - 1);
    } else {
        assert(h.take(0) =~= Seq::<char>::empty());
    }
}

/// A hash of ASCII characters (such as a hexadecimal digest) is shortened
/// to its first 12 characters, and kept whole when it is shorter.
pub proof fn lemma_short_hash_ascii(h: Seq<char>)
    requires
        forall|i: int| 0 <= i < h.len() ==> (#[trigger] h[i] as u32) < 128,
    ensures
        h.len() >= 12 ==> short_hash(h) == h.take(12),
        h.len() < 12 ==> short_hash(h) == h,
{
    if h.len() >= 12 {
        lemma_ascii_size(h, 12);
        let k = choose|k: int| 0 <= k <= h.len() && utf8_size(#[trigger] h.take(k)) == 12;
        lemma_ascii_size(h, k);
    } else {
        assert forall|k: int| 0 <= k <= h.len() implies utf8_size(#[trigger] h.take(k)) != 12 by {
            lemma_ascii_size(h, k);
        }
    }
}

/// The identifier of an ASCII hash of at least 12 characters (such as a
/// hexadecimal digest) is its first 12 characters, `_`, and the Unix time
/// in decimal.
pub proof fn lemma_identifier_ascii(h: Seq<char>, now: int)
    requires
        forall|i: int| 0 <= i < h.len() ==> (#[trigger] h[i] as u32) < 128,
        h.len() >= 12,
    ensures
        identifier(h, now) == h.take(12) + seq!['_'] + format_int(now, 0),
        identifier(h, now).len() > 13,
{
    lemma_short_hash_ascii(h);
    lemma_format_int_head(now, 0);
}

/// A formatted number starts with a digit or a minus sign.
proof fn lemma_format_int_head(v: int, width: nat)
    ensures
        format_int(v, width).len() > 0,
        format_int(v, width)[0] == '-' || is_digit(format_int(v, width)[0]),
{
    lemma_format_int(v, width);
    let f = format_int(v, width);
    if v >= 0 {
        assert(is_digit(f[0]));
    }
}

/// The storage path under a cache directory that does not end with `/`,
/// for a hash that does not start with `/`: the directory, `/scripts/`, the
/// `YYYY-MM` month of `now`, `/`, then `<short hash>_<now>.py`.
#[verifier::rlimit(40)]
pub proof fn lemma_storage_layout(cache_dir: Seq<char>, hash: Seq<char>, now: int)
    requires
        is_absolute(cache_dir),
        cache_dir.last() != '/',
        hash.len() == 0 || hash[0] != '/',
    ensures
        storage_path(cache_dir, hash, now) == cache_dir + seq!['/', 's', 'c', 'r', 'i', 'p', 't', 's', '/']
            + format_int(calendar(now).0, 4) + seq!['-'] + format_int(calendar(now).1, 2) + seq![
            '/',
        ] + short_hash(hash) + seq!['_'] + format_int(now, 0) + seq!['.', 'p', 'y'],
{
    let scripts = seq!['s', 'c', 'r', 'i', 'p', 't', 's'];
    let a = path_join(cache_dir, scripts);
    assert(a == cache_dir + seq!['/'] + scripts);
    lemma_format_int_head(calendar(now).0, 4);
    let y = format_int(calendar(now).0, 4);
    let mo = format_int(calendar(now).1, 2);
    let m = month_dir(now);
    assert(m == y + seq!['-'] + mo);
    assert(m[0] == y[0]);
    let b = path_join(a, m);
    assert(b == a + seq!['/'] + m);
    lemma_short_hash_prefix(hash);
    let sh = short_hash(hash);
    let n = format_int(now, 0);
    let file = script_file_name(hash, now);
    assert(file == sh + seq!['_'] + n + seq!['.', 'p', 'y']);
    if sh.len() > 0 {
        assert(file[0] == sh[0]);
        assert(sh[0] == hash[0]);
    } else {
        assert(file[0] == '_');
    }
    let whole = path_join(b, file);
    assert(whole == b + seq!['/'] + file);
    let head = cache_dir + seq!['/', 's', 'c', 'r', 'i', 'p', 't', 's', '/'];
    assert(a + seq!['/'] =~= head);
    assert(b + seq!['/'] =~= head + y + seq!['-'] + mo + seq!['/']);
    assert(whole =~= head + y + seq!['-'] + mo + seq!['/'] + sh + seq!['_'] + n + seq![
        '.',
        'p',
        'y',
    ]);
}

/// Joining onto an absolute path gives an absolute path.
pub proof fn lemma_join_absolute(base: Seq<char>, part: Seq<char>)
    requires
        base.len() > 0 && base[0] == '/',
        part.len() > 0,
    ensures
        path_join(base, part).len() > 0 && path_join(base, part)[0] == '/',
{
}

/// Scripts of an absolute cache directory are stored at absolute paths.
pub proof fn lemma_storage_path_absolute(cache_dir: Seq<char>, hash: Seq<char>, now: int)
    requires
        is_absolute(cache_dir),
    ensures
        is_absolute(storage_path(cache_dir, hash, now)),
{
    let scripts = seq!['s', 'c', 'r', 'i', 'p', 't', 's'];
    lemma_join_absolute(cache_dir, scripts);
    let a = path_join(cache_dir, scripts);
    lemma_format_int_nonempty(calendar(now).0, 4);
    lemma_join_absolute(a, month_dir(now));
    let b = path_join(a, month_dir(now));
    lemma_join_absolute(b, script_file_name(hash, now));
}

/// A formatted number has at least one character.
pub proof fn lemma_format_int_nonempty(v: int, width: nat)
    ensures
        format_int(v, width).len() > 0,
{
}

} // verus!
