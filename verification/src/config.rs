//! Locating the packages directory in a simulator configuration file.
//!
//! The configuration file is a sequence of text lines; the one whose trimmed
//! form starts with the key `InstalledPackagesPath` carries, after the first
//! space, the quoted path of the installed-packages directory. Reading the
//! file and walking candidate locations on disk is I/O and stays outside the
//! library; the line-level parsing and the candidate-path test live here.

use vstd::prelude::*;
use vstd::slice::slice_subrange;
use vstd::slice::slice_to_vec;
use vstd::std_specs::vec::vec_index;
use crate::worker::starts_with;

verus! {

/// ASCII whitespace as trimmed from a configuration line: space, tab,
/// carriage return, line feed.
pub open spec fn is_ascii_space(c: u8) -> bool {
    c == 32 || c == 9 || c == 13 || c == 10
}

/// `s` without its leading whitespace.
pub open spec fn trim_front(s: Seq<u8>) -> Seq<u8>
    decreases s.len(),
{
    if s.len() > 0 && is_ascii_space(s[0]) {
        trim_front(s.drop_first())
    } else {
        s
    }
}

/// `s` without its trailing whitespace.
pub open spec fn trim_back(s: Seq<u8>) -> Seq<u8>
    decreases s.len(),
{
    if s.len() > 0 && is_ascii_space(s[s.len() - 1]) {
        trim_back(s.drop_last())
    } else {
        s
    }
}

/// `s` without leading and trailing whitespace.
pub open spec fn trimmed(s: Seq<u8>) -> Seq<u8> {
    trim_back(trim_front(s))
}

/// The bytes of the key `InstalledPackagesPath`.
pub open spec fn packages_key() -> Seq<u8> {
    seq![
        73u8, 110, 115, 116, 97, 108, 108, 101, 100, 80, 97, 99, 107, 97, 103, 101, 115, 80, 97,
        116, 104,
    ]
}

/// Whether `p` is a byte-wise prefix of `s`.
pub open spec fn starts_with_seq(s: Seq<u8>, p: Seq<u8>) -> bool {
    p.len() <= s.len() && s.take(p.len() as int) == p
}

/// The position of the first occurrence of `b` in `s` at or after `from`;
/// negative when there is none.
pub open spec fn find_byte(s: Seq<u8>, b: u8, from: int) -> int
    decreases s.len() - from,
{
    if from < 0 || from >= s.len() {
        -1
    } else if s[from] == b {
        from
    } else {
        find_byte(s, b, from + 1)
    }
}

/// The path a configuration line yields: for a trimmed line that starts
/// with the key, the text after the first space with its first and last
/// byte (the quotes) removed. A line without the key, without a space, or
/// with fewer than two bytes after the space yields nothing.
pub open spec fn parse_usercfg_line_spec(line: Seq<u8>) -> Option<Seq<u8>> {
    let t = trimmed(line);
    if !starts_with_seq(t, packages_key()) {
        Option::None
    } else {
        let sp = find_byte(t, 32, 0);
        if sp < 0 {
            Option::None
        } else {
            let value = t.skip(sp + 1);
            if value.len() >= 2 {
                Option::Some(value.subrange(1, value.len() - 1))
            } else {
                Option::None
            }
        }
    }
}

/// The packages directory a configuration file yields: the parse of the
/// first line whose trimmed form starts with the key; nothing when no line
/// has the key or the key line is malformed.
pub open spec fn find_packages_dir_spec(lines: Seq<Vec<u8>>) -> Option<Seq<u8>>
    decreases lines.len(),
{
    if lines.len() == 0 {
        Option::None
    } else if starts_with_seq(trimmed(lines.first()@), packages_key()) {
        parse_usercfg_line_spec(lines.first()@)
    } else {
        find_packages_dir_spec(lines.drop_first())
    }
}

/// If everything before `i` is whitespace and `i` is the end or not
/// whitespace, trimming the front is skipping to `i`.
proof fn lemma_trim_front_skip(s: Seq<u8>, i: int)
    requires
        0 <= i <= s.len(),
        forall|k: int| 0 <= k < i ==> is_ascii_space(s[k]),
        i == s.len() || !is_ascii_space(s[i]),
    ensures
        trim_front(s) == s.skip(i),
    decreases i,
{
    if i == 0 {
        assert(s.skip(0) =~= s);
    } else {
        assert(is_ascii_space(s[0]));
        assert forall|k: int| 0 <= k < i - 1 implies is_ascii_space(s.drop_first()[k]) by {
            assert(s.drop_first()[k] == s[k + 1]);
        }
        lemma_trim_front_skip(s.drop_first(), i - 1);
        assert(s.drop_first().skip(i - 1) =~= s.skip(i));
    }
}

/// If everything from `j` on is whitespace and `j` is the start or not
/// preceded by whitespace, trimming the back is taking `j`.
proof fn lemma_trim_back_take(s: Seq<u8>, j: int)
    requires
        0 <= j <= s.len(),
        forall|k: int| j <= k < s.len() ==> is_ascii_space(s[k]),
        j == 0 || !is_ascii_space(s[j - 1]),
    ensures
        trim_back(s) == s.take(j),
    decreases s.len(),
{
    if j == s.len() {
        if s.len() > 0 {
            assert(!is_ascii_space(s[s.len() - 1]));
        }
        assert(s.take(j) =~= s);
    } else {
        assert(is_ascii_space(s[s.len() - 1]));
        lemma_trim_back_take(s.drop_last(), j);
        assert(s.drop_last().take(j) =~= s.take(j));
    }
}

/// If `b` first occurs at `i` (or not at all when `i` is the end), the
/// search from the start finds exactly that.
proof fn lemma_find_byte(s: Seq<u8>, b: u8, from: int, i: int)
    requires
        0 <= from <= i <= s.len(),
        forall|k: int| from <= k < i ==> s[k] != b,
        i == s.len() || s[i] == b,
    ensures
        i == s.len() ==> find_byte(s, b, from) == -1,
        i < s.len() ==> find_byte(s, b, from) == i,
    decreases i - from,
{
    if from == i {
    } else {
        lemma_find_byte(s, b, from + 1, i);
    }
}

/// Decides `is_ascii_space`.
fn is_space_byte(c: u8) -> (r: bool)
    ensures
        r == is_ascii_space(c),
{
    c == 32 || c == 9 || c == 13 || c == 10
}

/// Trims ASCII whitespace from both ends of a line.
pub fn trim_ascii(line: &Vec<u8>) -> (r: Vec<u8>)
    ensures
        r@ == trimmed(line@),
{
    let len = line.len();
    let mut start: usize = 0;
    while start < len && is_space_byte(*vec_index(line, start))
        invariant
            0 <= start <= len,
            len == line@.len(),
            forall|k: int| 0 <= k < start ==> is_ascii_space(line@[k]),
        decreases len - start,
    {
        start = start + 1;
    }
    let mut end: usize = len;
    while end > start && is_space_byte(*vec_index(line, end - 1))
        invariant
            start <= end <= len,
            len == line@.len(),
            forall|k: int| 0 <= k < start ==> is_ascii_space(line@[k]),
            forall|k: int| end <= k < len ==> is_ascii_space(line@[k]),
        decreases end,
    {
        end = end - 1;
    }
    proof {
        lemma_trim_front_skip(line@, start as int);
        let f = line@.skip(start as int);
        assert forall|k: int| end - start <= k < f.len() implies is_ascii_space(f[k]) by {
            assert(f[k] == line@[k + start]);
        }
        if end > start {
            assert(f[end - start - 1] == line@[end - 1]);
        }
        lemma_trim_back_take(f, end - start);
        assert(f.take(end - start) =~= line@.subrange(start as int, end as int));
    }
    slice_to_vec(slice_subrange(line.as_slice(), start, end))
}

/// The key `InstalledPackagesPath` as a byte vector.
fn packages_key_vec() -> (r: Vec<u8>)
    ensures
        r@ == packages_key(),
{
    let r: Vec<u8> = vec![
        73u8, 110, 115, 116, 97, 108, 108, 101, 100, 80, 97, 99, 107, 97, 103, 101, 115, 80, 97,
        116, 104,
    ];
    proof {
        assert(r@ =~= packages_key());
    }
    r
}

/// Parses one configuration line: the quoted path after the key, if the
/// line carries one.
pub fn parse_usercfg_line(line: &Vec<u8>) -> (r: Option<Vec<u8>>)
    ensures
        r is Some <==> parse_usercfg_line_spec(line@) is Some,
        r matches Some(v) ==> parse_usercfg_line_spec(line@) == Option::Some(v@),
{
    let t = trim_ascii(line);
    let key = packages_key_vec();
    if !starts_with(&t, &key) {
        return None;
    }
    let tlen = t.len();
    let mut sp: usize = 0;
    while sp < tlen && *vec_index(&t, sp) != 32
        invariant
            0 <= sp <= tlen,
            tlen == t@.len(),
            forall|k: int| 0 <= k < sp ==> t@[k] != 32,
        decreases tlen - sp,
    {
        sp = sp + 1;
    }
    proof {
        lemma_find_byte(t@, 32, 0, sp as int);
    }
    if sp == tlen {
        return None;
    }
    if tlen - sp - 1 >= 2 {
        proof {
            let value = t@.skip(sp + 1);
            assert(value.subrange(1, value.len() - 1) =~= t@.subrange(
                sp + 2,
                tlen - 1,
            ));
        }
        Some(slice_to_vec(slice_subrange(t.as_slice(), sp + 2, tlen - 1)))
    } else {
        None
    }
}

/// Finds the packages directory in the lines of a configuration file: the
/// first line whose trimmed form starts with the key decides; a malformed
/// key line yields nothing.
pub fn get_msfs_packages_dir(lines: &Vec<Vec<u8>>) -> (r: Option<Vec<u8>>)
    ensures
        r is Some <==> find_packages_dir_spec(lines@) is Some,
        r matches Some(v) ==> find_packages_dir_spec(lines@) == Option::Some(v@),
{
    let n = lines.len();
    let mut i: usize = 0;
    proof {
        assert(lines@.skip(0) =~= lines@);
    }
    while i < n
        invariant
            0 <= i <= n,
            n == lines@.len(),
            find_packages_dir_spec(lines@.skip(i as int)) == find_packages_dir_spec(lines@),
        decreases n - i,
    {
        let line = vec_index(lines, i);
        let t = trim_ascii(line);
        let key = packages_key_vec();
        proof {
            assert(lines@.skip(i as int).first() == lines@[i as int]);
            assert(lines@.skip(i as int).drop_first() =~= lines@.skip(i + 1));
        }
        if starts_with(&t, &key) {
            return parse_usercfg_line(line);
        }
        i = i + 1;
    }
    proof {
        assert(lines@.skip(n as int) =~= Seq::<Vec<u8>>::empty());
    }
    None
}

/// ASCII lowercase of one byte.
pub open spec fn lower_byte(c: u8) -> u8 {
    if 65 <= c <= 90 {
        (c + 32) as u8
    } else {
        c
    }
}

/// ASCII lowercase of a byte sequence.
pub open spec fn lower_bytes(s: Seq<u8>) -> Seq<u8> {
    s.map_values(|c: u8| lower_byte(c))
}

/// Whether `needle` occurs contiguously in `hay`.
pub open spec fn contains_bytes(hay: Seq<u8>, needle: Seq<u8>) -> bool {
    exists|i: int|
        0 <= i && i + needle.len() <= hay.len() && #[trigger] hay.subrange(
            i,
            i + needle.len() as int,
        ) == needle
}

/// The bytes of the marker `microsoft`.
pub open spec fn microsoft_marker() -> Seq<u8> {
    seq![109u8, 105, 99, 114, 111, 115, 111, 102, 116]
}

/// The bytes of the marker `flight`.
pub open spec fn flight_marker() -> Seq<u8> {
    seq![102u8, 108, 105, 103, 104, 116]
}

/// The bytes of the file name `UserCfg.opt`.
pub open spec fn usercfg_file_name() -> Seq<u8> {
    seq![85u8, 115, 101, 114, 67, 102, 103, 46, 111, 112, 116]
}

/// Whether a directory entry can be the simulator's configuration file: its
/// file name is `UserCfg.opt` and its lowercased path mentions both markers.
pub open spec fn is_usercfg_candidate(file_name: Seq<u8>, path: Seq<u8>) -> bool {
    &&& file_name == usercfg_file_name()
    &&& contains_bytes(lower_bytes(path), microsoft_marker())
    &&& contains_bytes(lower_bytes(path), flight_marker())
}

/// Lowercases the ASCII letters of a byte vector.
pub fn to_lower_bytes(v: &Vec<u8>) -> (r: Vec<u8>)
    ensures
        r@ == lower_bytes(v@),
{
    let len = v.len();
    let mut r: Vec<u8> = Vec::new();
    proof {
        assert(r@ =~= lower_bytes(v@).take(0));
    }
    let mut i: usize = 0;
    while i < len
        invariant
            0 <= i <= len,
            len == v@.len(),
            r@ == lower_bytes(v@).take(i as int),
        decreases len - i,
    {
        let c = *vec_index(v, i);
        let l = if c >= 65 && c <= 90 {
            c + 32
        } else {
            c
        };
        r.push(l);
        proof {
            assert(lower_bytes(v@)[i as int] == lower_byte(v@[i as int]));
            assert(r@ =~= lower_bytes(v@).take(i + 1));
        }
        i = i + 1;
    }
    proof {
        assert(lower_bytes(v@).take(len as int) =~= lower_bytes(v@));
    }
    r
}

/// Whether two byte vectors hold the same bytes.
fn bytes_equal(a: &Vec<u8>, b: &Vec<u8>) -> (r: bool)
    ensures
        r == (a@ == b@),
{
    if a.len() != b.len() {
        return false;
    }
    let n = a.len();
    let mut i: usize = 0;
    while i < n
        invariant
            0 <= i <= n,
            n == a@.len() == b@.len(),
            forall|k: int| 0 <= k < i ==> a@[k] == b@[k],
        decreases n - i,
    {
        if *vec_index(a, i) != *vec_index(b, i) {
            return false;
        }
        i = i + 1;
    }
    proof {
        assert(a@ =~= b@);
    }
    true
}

/// Whether `needle` matches `hay` at position `at`.
fn match_at(hay: &Vec<u8>, needle: &Vec<u8>, at: usize) -> (r: bool)
    requires
        at + needle@.len() <= hay@.len(),
    ensures
        r == (hay@.subrange(at as int, at + needle@.len()) == needle@),
{
    let n = needle.len();
    let hl = hay.len();
    let mut k: usize = 0;
    while k < n
        invariant
            0 <= k <= n,
            n == needle@.len(),
            hl == hay@.len(),
            at + n <= hl,
            forall|t: int| 0 <= t < k ==> hay@[at + t] == needle@[t],
        decreases n - k,
    {
        if *vec_index(hay, at + k) != *vec_index(needle, k) {
            proof {
                assert(hay@.subrange(at as int, at + n as int)[k as int] != needle@[k as int]);
            }
            return false;
        }
        k = k + 1;
    }
    proof {
        assert(hay@.subrange(at as int, at + n as int) =~= needle@);
    }
    true
}

/// Decides `contains_bytes`.
pub fn contains_bytes_exec(hay: &Vec<u8>, needle: &Vec<u8>) -> (r: bool)
    ensures
        r == contains_bytes(hay@, needle@),
{
    let hlen = hay.len();
    let nlen = needle.len();
    if nlen > hlen {
        return false;
    }
    if nlen == 0 {
        proof {
            assert(hay@.subrange(0, 0 + needle@.len() as int) =~= needle@);
        }
        return true;
    }
    let mut i: usize = 0;
    while i <= hlen - nlen
        invariant
            0 <= i <= hlen - nlen + 1,
            1 <= nlen <= hlen,
            hlen == hay@.len(),
            nlen == needle@.len(),
            forall|j: int| 0 <= j < i ==> #[trigger] hay@.subrange(j, j + nlen as int) != needle@,
        decreases hlen - nlen + 1 - i,
    {
        if match_at(hay, needle, i) {
            proof {
                assert(hay@.subrange(i as int, i + nlen as int) == needle@);
            }
            return true;
        }
        i = i + 1;
    }
    proof {
        assert forall|j: int| 0 <= j && j + needle@.len() <= hay@.len() implies #[trigger] hay@
            .subrange(j, j + needle@.len() as int) != needle@ by {
            assert(j < i);
        }
    }
    false
}

/// The file name `UserCfg.opt` as a byte vector.
fn usercfg_file_name_vec() -> (r: Vec<u8>)
    ensures
        r@ == usercfg_file_name(),
{
    let r: Vec<u8> = vec![85u8, 115, 101, 114, 67, 102, 103, 46, 111, 112, 116];
    proof {
        assert(r@ =~= usercfg_file_name());
    }
    r
}

/// Tests one traversal entry of the fallback search for the configuration
/// file: the entry's file name must be `UserCfg.opt` and its lowercased
/// path must mention the simulator through both markers.
pub fn is_usercfg_candidate_exec(file_name: &Vec<u8>, path: &Vec<u8>) -> (r: bool)
    ensures
        r == is_usercfg_candidate(file_name@, path@),
{
    let expected = usercfg_file_name_vec();
    if !bytes_equal(file_name, &expected) {
        return false;
    }
    let lower = to_lower_bytes(path);
    let microsoft: Vec<u8> = vec![109u8, 105, 99, 114, 111, 115, 111, 102, 116];
    let flight: Vec<u8> = vec![102u8, 108, 105, 103, 104, 116];
    proof {
        assert(microsoft@ =~= microsoft_marker());
        assert(flight@ =~= flight_marker());
    }
    let has_microsoft = contains_bytes_exec(&lower, &microsoft);
    let has_flight = contains_bytes_exec(&lower, &flight);
    has_microsoft && has_flight
}

} // verus!
